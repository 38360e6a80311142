//! The persistent key-value store behind `store`, `load` and `remove`: keys map
//! to the JSON text of their values.
use vstd::prelude::*;

use crate::literal::{
    decode_spec, encode_spec, false_word, int_text_of, null_word, round_trips, true_word, LiteralView,
};
use crate::text::{chars_of, pair, push_char, push_chars, replace_all, replace_seq, single, str_eq};

verus! {

/// `e` holds the key `k` at position `i`.
pub open spec fn key_at(e: Seq<(Seq<char>, Seq<char>)>, k: Seq<char>, i: int) -> bool {
    0 <= i < e.len() && e[i].0 == k
}

/// No key occurs twice in `e`.
pub open spec fn keys_distinct(e: Seq<(Seq<char>, Seq<char>)>) -> bool {
    forall|i: int, j: int| 0 <= i < e.len() && 0 <= j < e.len() && e[i].0 == e[j].0 ==> i == j
}

/// The key-value map that the entries `e` hold.
pub open spec fn map_of(e: Seq<(Seq<char>, Seq<char>)>) -> Map<Seq<char>, Seq<char>> {
    Map::new(
        |k: Seq<char>| exists|i: int| key_at(e, k, i),
        |k: Seq<char>| e[choose|i: int| key_at(e, k, i)].1,
    )
}

/// The map made by inserting the pairs of `m` one after another into an empty map.
pub open spec fn map_of_pairs(m: Seq<(Seq<char>, Seq<char>)>) -> Map<Seq<char>, Seq<char>>
    decreases m.len(),
{
    if m.len() == 0 {
        Map::empty()
    } else {
        map_of_pairs(m.drop_last()).insert(m.last().0, m.last().1)
    }
}

/// A key as written in the object text: each `"` becomes `\"`.
pub open spec fn key_text(k: Seq<char>) -> Seq<char> {
    replace_seq(k, seq!['"'], seq!['\\', '"'])
}

/// One member of the object text: the quoted key, a colon, then the stored value text.
pub open spec fn member_text(p: (Seq<char>, Seq<char>)) -> Seq<char> {
    seq!['"'] + key_text(p.0) + seq!['"', ':'] + p.1
}

/// The members of `e`, in order, separated by commas.
pub open spec fn members_text(e: Seq<(Seq<char>, Seq<char>)>) -> Seq<char>
    decreases e.len(),
{
    if e.len() == 0 {
        Seq::<char>::empty()
    } else if e.len() == 1 {
        member_text(e[0])
    } else {
        members_text(e.drop_last()) + seq![','] + member_text(e.last())
    }
}

/// The JSON object text of the entries `e`.
pub open spec fn object_text(e: Seq<(Seq<char>, Seq<char>)>) -> Seq<char> {
    seq!['{'] + members_text(e) + seq!['}']
}

proof fn lemma_value_at(e: Seq<(Seq<char>, Seq<char>)>, k: Seq<char>, i: int)
    requires
        keys_distinct(e),
        key_at(e, k, i),
    ensures
        map_of(e).contains_key(k),
        map_of(e)[k] == e[i].1,
{
    let j = choose|j: int| key_at(e, k, j);
    assert(key_at(e, k, j));
    assert(i == j);
}

/// The members of the JSON object that `serde_json` parses from `text`, each
/// value written back as compact JSON text; `None` where `text` is not valid JSON
/// or its top-level value is not an object.
pub uninterp spec fn json_object_members(text: Seq<char>) -> Option<Seq<(Seq<char>, Seq<char>)>>;

/// A character that JSON writes inside a string as itself: not `"`, not `\`,
/// not a control character below U+0020.
pub open spec fn is_plain_json_char(c: char) -> bool {
    c != '"' && c != '\\' && (c as u32) >= 0x20
}

/// A text made only of such characters.
pub open spec fn is_plain_json_text(t: Seq<char>) -> bool {
    forall|i: int| 0 <= i < t.len() ==> is_plain_json_char(#[trigger] t[i])
}

/// A compact JSON value text that `serde_json` parses and writes back unchanged:
/// `null`, `true`, `false`, the decimal text of a 64-bit integer, or a string
/// of plain characters in double quotes.
pub open spec fn is_plain_json_value(v: Seq<char>) -> bool {
    ||| v == null_word()
    ||| v == true_word()
    ||| v == false_word()
    ||| exists|i: int| i64::MIN <= i <= i64::MAX && v == #[trigger] int_text_of(i)
    ||| (v.len() >= 2 && v[0] == '"' && v.last() == '"' && is_plain_json_text(
        v.subrange(1, v.len() - 1),
    ))
}

/// Entries with distinct plain keys and plain value texts.
pub open spec fn plain_entries(e: Seq<(Seq<char>, Seq<char>)>) -> bool {
    &&& keys_distinct(e)
    &&& forall|i: int|
        0 <= i < e.len() ==> is_plain_json_text(#[trigger] e[i].0) && is_plain_json_value(e[i].1)
}

/// Parses `text` with `serde_json::from_str::<serde_json::Value>` and, where the
/// value is an object, gives its members in the order of its map, each value
/// written with `serde_json::Value`'s `Display` (compact JSON). The contract
/// claims that the result is the named function of `text`, and that an object
/// text `{"k":v,...}` with distinct plain keys and plain values (see
/// `is_plain_json_value`) gives back exactly its members, in some order: serde_json
/// parses such a key to the same string, and writes `null`, `true`, `false`, an
/// integer parsed from its decimal text, and a string of plain characters back
/// as the same text. Which order the map gives is left unsaid.
#[verifier::external_body]
fn parse_object_members(text: &str) -> (r: Option<Vec<(String, String)>>)
    ensures
        match r {
            Some(m) => json_object_members(text@) == Some(
                m@.map_values(|p: (String, String)| (p.0@, p.1@)),
            ),
            None => json_object_members(text@) is None,
        },
        forall|e: Seq<(Seq<char>, Seq<char>)>|
            #[trigger] object_text(e) == text@ && plain_entries(e) ==> r is Some
                && pairs_view(r->0@).to_multiset() == e.to_multiset(),
{
    match serde_json::from_str::<serde_json::Value>(text) {
        Ok(serde_json::Value::Object(map)) => Some(
            map.into_iter().map(|(k, v)| (k, v.to_string())).collect(),
        ),
        _ => None,
    }
}

/// The pairs `v` as texts.
pub open spec fn pairs_view(v: Seq<(String, String)>) -> Seq<(Seq<char>, Seq<char>)> {
    v.map_values(|p: (String, String)| (p.0@, p.1@))
}

/// A key-value store whose values are JSON texts.
pub struct StateStore {
    entries: Vec<(String, String)>,
}

impl View for StateStore {
    type V = Map<Seq<char>, Seq<char>>;

    /// The key-value map that the store holds.
    open spec fn view(&self) -> Map<Seq<char>, Seq<char>> {
        map_of(self.entries())
    }
}

impl StateStore {
    /// The entries in the order in which the object text lists them.
    pub closed spec fn entries(&self) -> Seq<(Seq<char>, Seq<char>)> {
        pairs_view(self.entries@)
    }

    /// No key is held twice; every store keeps this.
    #[verifier::type_invariant]
    pub open spec fn wf(&self) -> bool {
        keys_distinct(self.entries())
    }

    /// The entries are exactly the store's pairs: one entry per key, each with
    /// the key's value, so the object text lists every key once.
    pub proof fn lemma_entries_are_pairs(&self)
        requires
            self.wf(),
        ensures
            self.entries().len() == self@.len(),
            forall|i: int|
                0 <= i < self.entries().len() ==> self@.contains_key(#[trigger] self.entries()[i].0)
                    && self@[self.entries()[i].0] == self.entries()[i].1,
            forall|k: Seq<char>|
                #[trigger] self@.contains_key(k) ==> exists|i: int| key_at(self.entries(), k, i),
    {
        self.lemma_dom_len();
        assert forall|i: int| 0 <= i < self.entries().len() implies self@.contains_key(
            #[trigger] self.entries()[i].0,
        ) && self@[self.entries()[i].0] == self.entries()[i].1 by {
            lemma_value_at(self.entries(), self.entries()[i].0, i);
        }
    }

    /// An empty store.
    pub fn new() -> (s: StateStore)
        ensures
            s@ == Map::<Seq<char>, Seq<char>>::empty(),
            s.entries().len() == 0,
    {
        let s = StateStore { entries: Vec::new() };
        assert(s@ =~= Map::<Seq<char>, Seq<char>>::empty());
        s
    }

    /// Number of keys held.
    pub fn len(&self) -> (n: usize)
        ensures
            n == self@.len(),
            n == self.entries().len(),
    {
        proof {
            use_type_invariant(self);
            self.lemma_dom_len();
        }
        self.entries.len()
    }

    /// Whether the store holds no key.
    pub fn is_empty(&self) -> (b: bool)
        ensures
            b == (self@.len() == 0),
    {
        proof {
            use_type_invariant(self);
            self.lemma_dom_len();
        }
        self.entries.len() == 0
    }

    proof fn lemma_dom_len(&self)
        requires
            self.wf(),
        ensures
            self@.dom().finite(),
            self@.len() == self.entries().len(),
        decreases self.entries().len(),
    {
        let e = self.entries();
        let keys = Seq::new(e.len(), |i: int| e[i].0);
        assert(self@.dom() =~= keys.to_set()) by {
            assert forall|k: Seq<char>| self@.dom().contains(k) implies keys.to_set().contains(k) by {
                let i = choose|i: int| key_at(e, k, i);
                assert(keys[i] == k);
            }
            assert forall|k: Seq<char>| keys.to_set().contains(k) implies self@.dom().contains(k) by {
                let i = choose|i: int| 0 <= i < keys.len() && keys[i] == k;
                assert(key_at(e, k, i));
            }
        }
        assert(keys.no_duplicates());
        keys.unique_seq_to_set();
    }

    /// Removes every key.
    pub fn clear(&mut self)
        ensures
            final(self)@ == Map::<Seq<char>, Seq<char>>::empty(),
            final(self).entries().len() == 0,
    {
        self.entries = Vec::new();
        assert(self@ =~= Map::<Seq<char>, Seq<char>>::empty());
    }

    fn position(&self, key: &str) -> (r: Option<usize>)
        ensures
            match r {
                Some(i) => key_at(self.entries(), key@, i as int),
                None => !self@.contains_key(key@),
            },
    {
        let n = self.entries.len();
        let mut i: usize = 0;
        while i < n
            invariant
                n == self.entries@.len(),
                i <= n,
                forall|j: int| 0 <= j < i ==> !key_at(self.entries(), key@, j),
            decreases n - i,
        {
            if str_eq(self.entries[i].0.as_str(), key) {
                return Some(i);
            }
            i = i + 1;
        }
        proof {
            if self@.contains_key(key@) {
                let j = choose|j: int| key_at(self.entries(), key@, j);
                assert(key_at(self.entries(), key@, j));
            }
        }
        None
    }

    /// The value text held for `key`, if any.
    pub fn get(&self, key: &str) -> (r: Option<String>)
        ensures
            match r {
                Some(v) => self@.contains_key(key@) && self@[key@] == v@,
                None => !self@.contains_key(key@),
            },
    {
        match self.position(key) {
            Some(i) => {
                proof {
                    use_type_invariant(self);
                    lemma_value_at(self.entries(), key@, i as int);
                }
                Some(self.entries[i].1.clone())
            },
            None => None,
        }
    }

    /// Sets the value text for `key`, replacing any earlier one.
    pub fn insert(&mut self, key: String, value: String)
        ensures
            final(self)@ == old(self)@.insert(key@, value@),
    {
        proof {
            use_type_invariant(&*self);
        }
        let ghost old_e = self.entries();
        let ghost k = key@;
        let ghost v = value@;
        let found = self.position(key.as_str());
        let mut es: Vec<(String, String)> = Vec::new();
        std::mem::swap(&mut es, &mut self.entries);
        assert(pairs_view(es@) == old_e);
        match found {
            Some(i) => {
                es.remove(i);
                es.insert(i, (key, value));
                proof {
                    let e = pairs_view(es@);
                    assert(e =~= old_e.update(i as int, (k, v)));
                    assert(keys_distinct(e));
                    assert forall|q: Seq<char>| #![auto] map_of(e).contains_key(q) == map_of(old_e).insert(k, v).contains_key(q) by {
                        if map_of(e).contains_key(q) {
                            let j = choose|j: int| key_at(e, q, j);
                            assert(key_at(e, q, j));
                            if q != k {
                                assert(key_at(old_e, q, j));
                            }
                        }
                        if q != k && map_of(old_e).contains_key(q) {
                            let j = choose|j: int| key_at(old_e, q, j);
                            assert(key_at(e, q, j));
                        }
                        if q == k {
                            assert(key_at(e, q, i as int));
                        }
                    }
                    assert forall|q: Seq<char>| #[trigger] map_of(e).contains_key(q) implies map_of(e)[q] == map_of(old_e).insert(k, v)[q] by {
                        let j = choose|j: int| key_at(e, q, j);
                        assert(key_at(e, q, j));
                        lemma_value_at(e, q, j);
                        if q != k {
                            assert(key_at(old_e, q, j));
                            lemma_value_at(old_e, q, j);
                        }
                    }
                    assert(map_of(e) =~= map_of(old_e).insert(k, v));
                }
            },
            None => {
                es.push((key, value));
                proof {
                    let e = pairs_view(es@);
                    assert(e =~= old_e.push((k, v)));
                    assert(keys_distinct(e)) by {
                        assert forall|i: int, j: int| 0 <= i < e.len() && 0 <= j < e.len() && e[i].0 == e[j].0 implies i == j by {
                            if i < old_e.len() && j == old_e.len() {
                                assert(key_at(old_e, k, i));
                            }
                            if j < old_e.len() && i == old_e.len() {
                                assert(key_at(old_e, k, j));
                            }
                        }
                    }
                    assert forall|q: Seq<char>| #![auto] map_of(e).contains_key(q) == map_of(old_e).insert(k, v).contains_key(q) by {
                        if map_of(e).contains_key(q) {
                            let j = choose|j: int| key_at(e, q, j);
                            assert(key_at(e, q, j));
                            if j < old_e.len() {
                                assert(key_at(old_e, q, j));
                            }
                        }
                        if map_of(old_e).contains_key(q) {
                            let j = choose|j: int| key_at(old_e, q, j);
                            assert(key_at(e, q, j));
                        }
                        if q == k {
                            assert(key_at(e, q, old_e.len() as int));
                        }
                    }
                    assert forall|q: Seq<char>| #[trigger] map_of(e).contains_key(q) implies map_of(e)[q] == map_of(old_e).insert(k, v)[q] by {
                        let j = choose|j: int| key_at(e, q, j);
                        assert(key_at(e, q, j));
                        lemma_value_at(e, q, j);
                        if q != k {
                            assert(key_at(old_e, q, j));
                            lemma_value_at(old_e, q, j);
                        }
                    }
                    assert(map_of(e) =~= map_of(old_e).insert(k, v));
                }
            },
        }
        self.entries = es;
    }

    /// Removes `key`, giving back the value text it held.
    pub fn remove(&mut self, key: &str) -> (r: Option<String>)
        ensures
            final(self)@ == old(self)@.remove(key@),
            match r {
                Some(v) => old(self)@.contains_key(key@) && old(self)@[key@] == v@,
                None => !old(self)@.contains_key(key@),
            },
    {
        proof {
            use_type_invariant(&*self);
        }
        let ghost old_e = self.entries();
        let ghost k = key@;
        match self.position(key) {
            Some(i) => {
                proof {
                    lemma_value_at(old_e, k, i as int);
                }
                let mut es: Vec<(String, String)> = Vec::new();
                std::mem::swap(&mut es, &mut self.entries);
                assert(pairs_view(es@) == old_e);
                let (_, v) = es.remove(i);
                proof {
                    let e = pairs_view(es@);
                    assert(e =~= old_e.remove(i as int));
                    assert(keys_distinct(e)) by {
                        assert forall|a: int, b: int| 0 <= a < e.len() && 0 <= b < e.len() && e[a].0 == e[b].0 implies a == b by {
                            let a2 = if a < i { a } else { a + 1 };
                            let b2 = if b < i { b } else { b + 1 };
                            assert(old_e[a2].0 == old_e[b2].0);
                        }
                    }
                    assert forall|q: Seq<char>| #![auto] map_of(e).contains_key(q) == map_of(old_e).remove(k).contains_key(q) by {
                        if map_of(e).contains_key(q) {
                            let j = choose|j: int| key_at(e, q, j);
                            assert(key_at(e, q, j));
                            let j2 = if j < i { j } else { j + 1 };
                            assert(key_at(old_e, q, j2));
                            if q == k {
                                assert(key_at(old_e, k, i as int));
                            }
                        }
                        if map_of(old_e).contains_key(q) && q != k {
                            let j = choose|j: int| key_at(old_e, q, j);
                            assert(key_at(old_e, q, j));
                            assert(j != i);
                            let j2 = if j < i { j } else { j - 1 };
                            assert(key_at(e, q, j2));
                        }
                    }
                    assert forall|q: Seq<char>| #[trigger] map_of(e).contains_key(q) implies map_of(e)[q] == map_of(old_e).remove(k)[q] by {
                        let j = choose|j: int| key_at(e, q, j);
                        assert(key_at(e, q, j));
                        lemma_value_at(e, q, j);
                        let j2 = if j < i { j } else { j + 1 };
                        assert(key_at(old_e, q, j2));
                        lemma_value_at(old_e, q, j2);
                    }
                    assert(map_of(e) =~= map_of(old_e).remove(k));
                }
                self.entries = es;
                Some(v)
            },
            None => {
                assert(map_of(old_e) =~= map_of(old_e).remove(k));
                None
            },
        }
    }

    /// The store as a JSON object text: `{` then `"key":value` for each entry in
    /// order, separated by commas, then `}`; a `"` in a key is written `\"`.
    pub fn to_json(&self) -> (r: String)
        ensures
            r@ == object_text(self.entries()),
    {
        let n = self.entries.len();
        let mut out = String::new();
        push_char(&mut out, '{');
        let mut i: usize = 0;
        let quote = single('"');
        let escaped_quote = pair('\\', '"');
        while i < n
            invariant
                n == self.entries@.len(),
                n == self.entries().len(),
                i <= n,
                quote@ == seq!['"'],
                escaped_quote@ == seq!['\\', '"'],
                out@ == seq!['{'] + members_text(self.entries().take(i as int)),
            decreases n - i,
        {
            let ghost before = out@;
            if i > 0 {
                push_char(&mut out, ',');
            }
            push_char(&mut out, '"');
            let k = replace_all(&chars_of(self.entries[i].0.as_str()), &quote, &escaped_quote);
            push_chars(&mut out, &k);
            push_char(&mut out, '"');
            push_char(&mut out, ':');
            push_chars(&mut out, &chars_of(self.entries[i].1.as_str()));
            proof {
                let e = self.entries();
                let t = e.take(i + 1);
                assert(e[i as int] == (self.entries@[i as int].0@, self.entries@[i as int].1@));
                assert(t.last() == e[i as int]);
                assert(t.drop_last() == e.take(i as int));
                if i == 0 {
                    assert(t.len() == 1);
                    assert(out@ == before + member_text(e[0]));
                } else {
                    assert(out@ == before + seq![','] + member_text(e[i as int]));
                }
            }
            i = i + 1;
        }
        push_char(&mut out, '}');
        proof {
            assert(self.entries().take(n as int) == self.entries());
        }
        out
    }

    /// Replaces the contents by the given members, inserted one after another;
    /// `None` leaves the store as it is.
    pub fn hydrate(&mut self, members: Option<Vec<(String, String)>>)
        ensures
            match members {
                Some(m) => final(self)@ == map_of_pairs(
                    m@.map_values(|p: (String, String)| (p.0@, p.1@)),
                ),
                None => final(self)@ == old(self)@,
            },
    {
        match members {
            None => {},
            Some(m) => {
                let ghost mv = m@.map_values(|p: (String, String)| (p.0@, p.1@));
                self.clear();
                let n = m.len();
                let mut i: usize = 0;
                while i < n
                    invariant
                        n == m@.len(),
                        mv == m@.map_values(|p: (String, String)| (p.0@, p.1@)),
                        i <= n,
                        self@ == map_of_pairs(mv.take(i as int)),
                    decreases n - i,
                {
                    let k = m[i].0.clone();
                    let v = m[i].1.clone();
                    self.insert(k, v);
                    proof {
                        assert(mv.take(i + 1).drop_last() == mv.take(i as int));
                        assert(mv.take(i + 1).last() == mv[i as int]);
                    }
                    i = i + 1;
                }
                proof {
                    assert(mv.take(n as int) == mv);
                }
            },
        }
    }

    /// Replaces the contents by the members of the JSON object `json`, each value
    /// kept as its JSON text; leaves the store as it is where `json` is not a JSON object.
    pub fn load_json(&mut self, json: &str)
        ensures
            match json_object_members(json@) {
                Some(m) => final(self)@ == map_of_pairs(m),
                None => final(self)@ == old(self)@,
            },
            forall|e: Seq<(Seq<char>, Seq<char>)>|
                #[trigger] object_text(e) == json@ && plain_entries(e) ==> final(self)@ == map_of(
                    e,
                ),
    {
        let parsed = parse_object_members(json);
        let ghost p = parsed;
        self.hydrate(parsed);
        proof {
            assert forall|e: Seq<(Seq<char>, Seq<char>)>|
                #[trigger] object_text(e) == json@ && plain_entries(e) implies self@ == map_of(
                e,
            ) by {
                let m = pairs_view(p->0@);
                assert(m == p->0@.map_values(|q: (String, String)| (q.0@, q.1@)));
                lemma_members_in_any_order(e, m);
            }
        }
    }
}

proof fn lemma_map_of_pairs(m: Seq<(Seq<char>, Seq<char>)>, k: Seq<char>)
    ensures
        map_of_pairs(m).contains_key(k) <==> exists|i: int| key_at(m, k, i),
        map_of_pairs(m).contains_key(k) ==> exists|i: int|
            key_at(m, k, i) && map_of_pairs(m)[k] == m[i].1,
    decreases m.len(),
{
    if m.len() > 0 {
        let d = m.drop_last();
        lemma_map_of_pairs(d, k);
        if m.last().0 == k {
            assert(key_at(m, k, m.len() - 1));
        } else {
            if exists|i: int| key_at(d, k, i) {
                let i = choose|i: int| key_at(d, k, i) && map_of_pairs(d)[k] == d[i].1;
                assert(key_at(m, k, i));
            }
            if exists|i: int| key_at(m, k, i) {
                let i = choose|i: int| key_at(m, k, i);
                assert(i < m.len() - 1);
                assert(key_at(d, k, i));
            }
        }
    }
}

/// Restoring saved members in any order gives the saved map back: inserting the
/// pairs of `m` one after another, where `m` holds the same pairs as entries `e`
/// with distinct keys, gives the map of `e`.
pub proof fn lemma_members_in_any_order(
    e: Seq<(Seq<char>, Seq<char>)>,
    m: Seq<(Seq<char>, Seq<char>)>,
)
    requires
        keys_distinct(e),
        m.to_multiset() == e.to_multiset(),
    ensures
        map_of_pairs(m) == map_of(e),
{
    broadcast use vstd::seq_lib::to_multiset_contains;

    assert forall|k: Seq<char>| #[trigger] map_of_pairs(m).contains_key(k) == map_of(e).contains_key(k) by {
        lemma_map_of_pairs(m, k);
        if map_of_pairs(m).contains_key(k) {
            let i = choose|i: int| key_at(m, k, i);
            assert(m.contains(m[i]));
            assert(m.to_multiset().count(m[i]) > 0);
            assert(e.contains(m[i]));
            let j = choose|j: int| 0 <= j < e.len() && e[j] == m[i];
            assert(key_at(e, k, j));
        }
        if map_of(e).contains_key(k) {
            let j = choose|j: int| key_at(e, k, j);
            assert(e.contains(e[j]));
            assert(e.to_multiset().count(e[j]) > 0);
            assert(m.contains(e[j]));
            let i = choose|i: int| 0 <= i < m.len() && m[i] == e[j];
            assert(key_at(m, k, i));
        }
    }
    assert forall|k: Seq<char>| #[trigger] map_of_pairs(m).contains_key(k) implies map_of_pairs(m)[k]
        == map_of(e)[k] by {
        lemma_map_of_pairs(m, k);
        let i = choose|i: int| key_at(m, k, i) && map_of_pairs(m)[k] == m[i].1;
        assert(m.contains(m[i]));
        assert(m.to_multiset().count(m[i]) > 0);
        assert(e.contains(m[i]));
        let j = choose|j: int| 0 <= j < e.len() && e[j] == m[i];
        lemma_value_at(e, k, j);
    }
    assert(map_of_pairs(m) =~= map_of(e));
}

/// What `load` gives back of `store`: a value written under a key is read back
/// unchanged (for `None`, booleans, 64-bit integers, strings, and number texts
/// kept as written), and the other keys keep their values.
pub proof fn lemma_load_after_store(
    m: Map<Seq<char>, Seq<char>>,
    key: Seq<char>,
    v: LiteralView,
    other: Seq<char>,
)
    requires
        round_trips(v),
    ensures
        decode_spec(m.insert(key, encode_spec(v))[key]) == v,
        other != key ==> m.insert(key, encode_spec(v)).contains_key(other) == m.contains_key(other),
        other != key && m.contains_key(other) ==> m.insert(key, encode_spec(v))[other] == m[other],
{
    crate::literal::lemma_store_load_round_trip(v);
}

} // verus!
