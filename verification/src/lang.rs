//! Message tables with fallback.
//!
//! A `Lang` maps message keys to localized texts and may carry a fallback
//! table that answers for keys it lacks; a key found nowhere resolves to
//! itself.  Tables are parsed from TOML documents of `key = "text"` pairs;
//! the caller reads the document from wherever it lives and hands the text
//! in.  Texts may hold `{name}` placeholders that
//! [`Lang::get_with_params`] substitutes.

use vstd::prelude::*;

use crate::kvmap::{kv_distinct, kv_map, lemma_kv_contains, lemma_kv_push, lemma_kv_update,
    lemma_kv_value_at};
use crate::text::{replace_all, replace_all_exec};
use crate::utils::push_char;

verus! {

/// An error from reading a message table.
#[derive(Clone, Debug, PartialEq, Eq)]
pub enum LangError {
    /// The document is not a TOML table of strings; carries the parser's
    /// description.
    Parse(String),
}

/// The key/value pairs of the TOML string table that a document denotes;
/// what `toml::from_str` parses out of it, keys in ascending order.
pub uninterp spec fn toml_messages(s: Seq<char>) -> Seq<(Seq<char>, Seq<char>)>;

/// The TOML parser's error type, opaque to the proofs; only its description
/// is read.
#[verifier::external_type_specification]
#[verifier::external_body]
pub struct ExTomlDeError(toml::de::Error);

/// Relies on `toml::de::Error::message`: what went wrong, as text.  Nothing
/// is assumed about the words.
pub assume_specification[ toml::de::Error::message ](e: &toml::de::Error) -> &str;

/// The message entries as their mathematical reading.
spec fn msg_views(s: Seq<(String, String)>) -> Seq<(Seq<char>, Seq<char>)> {
    s.map_values(|e: (String, String)| (e.0@, e.1@))
}

/// Whether some string of `s` has exactly the characters `k`.
pub open spec fn has_name(s: Seq<String>, k: Seq<char>) -> bool {
    exists|i: int| 0 <= i < s.len() && s[i]@ == k
}

/// `pat` surrounded by braces: the placeholder spelling of a parameter name.
pub open spec fn braced(name: Seq<char>) -> Seq<char> {
    seq!['{'] + name + seq!['}']
}

/// `msg` with the placeholders of `params[i..]` substituted in order.
pub open spec fn apply_params(msg: Seq<char>, params: Seq<(&str, &str)>, i: int) -> Seq<char>
    decreases params.len() - i,
{
    if i < 0 || i >= params.len() {
        msg
    } else {
        apply_params(replace_all(msg, braced(params[i].0@), params[i].1@), params, i + 1)
    }
}

/// A message table with an optional fallback table.
pub struct Lang {
    messages: Vec<(String, String)>,
    fallback: Option<Box<Lang>>,
}

impl Lang {
    /// This table's own messages.
    pub closed spec fn messages_map(self) -> Map<Seq<char>, Seq<char>> {
        kv_map(msg_views(self.messages@))
    }

    /// The fallback table, if one is attached.
    pub closed spec fn fallback_of(self) -> Option<Lang> {
        match self.fallback {
            Some(b) => Some(*b),
            None => None,
        }
    }

    /// Internal shape: keys are stored at most once, in this table and in
    /// every fallback behind it.
    pub closed spec fn wf(self) -> bool
        decreases self,
    {
        &&& kv_distinct(msg_views(self.messages@))
        &&& match self.fallback {
            Some(f) => f.wf(),
            None => true,
        }
    }

    /// What `get` answers for `key`: this table's text, else the fallback
    /// chain's, else the key itself.
    pub closed spec fn resolve(self, key: Seq<char>) -> Seq<char>
        decreases self,
    {
        if self.messages_map().contains_key(key) {
            self.messages_map()[key]
        } else {
            match self.fallback {
                Some(f) => f.resolve(key),
                None => key,
            }
        }
    }

    /// Whether `key` has a text in this table or anywhere down the fallback
    /// chain.
    pub closed spec fn spec_has_key(self, key: Seq<char>) -> bool
        decreases self,
    {
        self.messages_map().contains_key(key) || (match self.fallback {
            Some(f) => f.spec_has_key(key),
            None => false,
        })
    }

    /// Every key with a text, here or down the fallback chain.
    pub closed spec fn key_set(self) -> Set<Seq<char>>
        decreases self,
    {
        self.messages_map().dom().union(
            match self.fallback {
                Some(f) => f.key_set(),
                None => Set::empty(),
            },
        )
    }

    /// Builds a table from key/value pairs, without a fallback; a repeated
    /// key keeps its last value, as map collection would.
    pub fn from_entries(entries: Vec<(String, String)>) -> (r: Lang)
        ensures
            r.wf(),
            r.messages_map() == kv_map(
                entries@.map_values(|e: (String, String)| (e.0@, e.1@)),
            ),
            r.fallback_of() is None,
    {
        let ghost goal = msg_views(entries@);
        let mut messages: Vec<(String, String)> = Vec::new();
        let mut i: usize = 0;
        while i < entries.len()
            invariant
                i <= entries@.len(),
                kv_distinct(msg_views(messages@)),
                kv_map(msg_views(messages@)) == kv_map(goal.take(i as int)),
                goal == msg_views(entries@),
            decreases entries@.len() - i,
        {
            let ghost pre = msg_views(messages@);
            let ghost e = goal[i as int];
            proof {
                assert(goal.take(i as int + 1).drop_last() =~= goal.take(i as int));
                assert(goal.take(i as int + 1).last() == e);
            }
            let k = entries[i].0.clone();
            let v = entries[i].1.clone();
            match Self::find_key(&messages, &k) {
                Some(j) => {
                    messages[j] = (k, v);
                    proof {
                        assert(msg_views(messages@) =~= pre.update(j as int, e));
                        lemma_kv_update(pre, j as int, e);
                        assert forall|a: int, b: int|
                            0 <= a < b < msg_views(messages@).len() implies msg_views(
                            messages@,
                        )[a].0 != msg_views(messages@)[b].0 by {
                            assert(pre[a].0 == msg_views(messages@)[a].0);
                            assert(pre[b].0 == msg_views(messages@)[b].0);
                        }
                    }
                },
                None => {
                    messages.push((k, v));
                    proof {
                        assert(msg_views(messages@) =~= pre.push(e));
                        lemma_kv_push(pre, e);
                        lemma_kv_contains(pre, e.0);
                        assert forall|a: int, b: int|
                            0 <= a < b < msg_views(messages@).len() implies msg_views(
                            messages@,
                        )[a].0 != msg_views(messages@)[b].0 by {
                            if b < pre.len() {
                                assert(pre[a].0 != pre[b].0);
                            } else {
                                assert(msg_views(messages@)[b].0 == e.0);
                                assert(msg_views(messages@)[a].0 == pre[a].0);
                            }
                        }
                    }
                },
            }
            i += 1;
        }
        proof {
            assert(goal.take(goal.len() as int) =~= goal);
        }
        Lang { messages, fallback: None }
    }

    /// Parses a TOML document of `key = "text"` pairs into a table without a
    /// fallback.
    pub fn from_toml(content: &str) -> (r: Result<Lang, LangError>)
        ensures
            r matches Ok(lang) ==> lang.wf() && lang.messages_map() == kv_map(
                toml_messages(content@),
            ) && lang.fallback_of() is None,
    {
        match parse_string_table(content) {
            Ok(entries) => Ok(Self::from_entries(entries)),
            Err(e) => Err(LangError::Parse(e.message().to_owned())),
        }
    }

    /// Attaches `fallback` as the table consulted for keys this one lacks.
    pub fn with_fallback(self, fallback: Lang) -> (r: Lang)
        ensures
            r.messages_map() == self.messages_map(),
            r.fallback_of() == Some(fallback),
            self.wf() && fallback.wf() ==> r.wf(),
    {
        Lang { messages: self.messages, fallback: Some(Box::new(fallback)) }
    }

    /// The text for `key`: this table's, else the fallback chain's, else
    /// `key` itself.
    pub fn get<'a>(&'a self, key: &'a str) -> (r: &'a str)
        requires
            self.wf(),
        ensures
            r@ == self.resolve(key@),
        decreases *self,
    {
        let k = key.to_owned();
        match Self::find_key(&self.messages, &k) {
            Some(i) => {
                proof {
                    lemma_kv_value_at(msg_views(self.messages@), i as int);
                }
                self.messages[i].1.as_str()
            },
            None => {
                proof {
                    lemma_kv_contains(msg_views(self.messages@), key@);
                }
                match &self.fallback {
                    Some(f) => f.get(key),
                    None => key,
                }
            },
        }
    }

    /// The text for `key` with each `{name}` placeholder of `params`
    /// replaced by its value, in the order given.
    pub fn get_with_params(&self, key: &str, params: &[(&str, &str)]) -> (r: String)
        requires
            self.wf(),
        ensures
            r@ == apply_params(self.resolve(key@), params@, 0),
    {
        let mut message: String = self.get(key).to_owned();
        let ghost m0 = message@;
        let mut i: usize = 0;
        while i < params.len()
            invariant
                i <= params@.len(),
                apply_params(m0, params@, 0) == apply_params(message@, params@, i as int),
            decreases params@.len() - i,
        {
            let p = params[i];
            let mut pat = String::new();
            push_char(&mut pat, '{');
            pat.append(p.0);
            push_char(&mut pat, '}');
            proof {
                assert(pat@ =~= braced(p.0@));
                assert(pat@.len() > 0);
            }
            let next = replace_all_exec(message.as_str(), pat.as_str(), p.1);
            proof {
                assert(apply_params(message@, params@, i as int) == apply_params(
                    next@,
                    params@,
                    i as int + 1,
                ));
            }
            message = next;
            i += 1;
        }
        message
    }

    /// Whether `key` has a text here or down the fallback chain.
    pub fn has_key(&self, key: &str) -> (r: bool)
        requires
            self.wf(),
        ensures
            r == self.spec_has_key(key@),
        decreases *self,
    {
        let k = key.to_owned();
        match Self::find_key(&self.messages, &k) {
            Some(i) => {
                proof {
                    lemma_kv_value_at(msg_views(self.messages@), i as int);
                }
                true
            },
            None => {
                proof {
                    lemma_kv_contains(msg_views(self.messages@), key@);
                }
                match &self.fallback {
                    Some(f) => f.has_key(key),
                    None => false,
                }
            },
        }
    }

    /// Every key with a text, here or down the fallback chain, each once.
    pub fn list_keys(&self) -> (r: Vec<String>)
        requires
            self.wf(),
        ensures
            forall|a: int, b: int| 0 <= a < b < r@.len() ==> r@[a]@ != r@[b]@,
            forall|a: int| 0 <= a < r@.len() ==> #[trigger] self.key_set().contains(r@[a]@),
            forall|k: Seq<char>| #[trigger] self.key_set().contains(k) ==> has_name(r@, k),
        decreases *self,
    {
        // Gather this table's keys, then the fallback chain's.
        let mut source: Vec<String> = Vec::new();
        let mut i: usize = 0;
        while i < self.messages.len()
            invariant
                self.wf(),
                i <= self.messages@.len(),
                source@.len() == i,
                forall|a: int| 0 <= a < i ==> #[trigger] source@[a]@ == self.messages@[a].0@,
            decreases self.messages@.len() - i,
        {
            source.push(self.messages[i].0.clone());
            i += 1;
        }
        let ghost own = source@;
        match &self.fallback {
            Some(f) => {
                let mut more = f.list_keys();
                let ghost more0 = more@;
                source.append(&mut more);
                proof {
                    // Every key of the union occurs in `source`, and every
                    // entry of `source` is a key of the union.
                    assert forall|k: Seq<char>| #[trigger]
                        self.key_set().contains(k) implies has_name(source@, k) by {
                        if self.messages_map().dom().contains(k) {
                            lemma_kv_contains(msg_views(self.messages@), k);
                            let c = choose|c: int|
                                0 <= c < msg_views(self.messages@).len() && msg_views(
                                    self.messages@,
                                )[c].0 == k;
                            assert(source@[c]@ == k);
                        } else {
                            assert(f.key_set().contains(k));
                            assert(has_name(more0, k));
                            let c = choose|c: int| 0 <= c < more0.len() && more0[c]@ == k;
                            assert(source@[own.len() + c]@ == k);
                        }
                    }
                    assert forall|j: int|
                        0 <= j < source@.len() implies #[trigger] self.key_set().contains(
                        source@[j]@,
                    ) by {
                        if j < own.len() {
                            assert(msg_views(self.messages@)[j].0 == source@[j]@);
                            lemma_kv_value_at(msg_views(self.messages@), j);
                        } else {
                            assert(source@[j] == more0[j - own.len()]);
                            assert(f.key_set().contains(more0[j - own.len()]@));
                        }
                    }
                }
                let keys = dedup_names(source);
                proof {
                    lemma_dedup_keys(self.key_set(), own + more0, keys@);
                }
                keys
            },
            None => {
                proof {
                    assert forall|k: Seq<char>| #[trigger]
                        self.key_set().contains(k) implies has_name(source@, k) by {
                        assert(self.messages_map().dom().contains(k));
                        lemma_kv_contains(msg_views(self.messages@), k);
                        let c = choose|c: int|
                            0 <= c < msg_views(self.messages@).len() && msg_views(
                                self.messages@,
                            )[c].0 == k;
                        assert(source@[c]@ == k);
                    }
                    assert forall|j: int|
                        0 <= j < source@.len() implies #[trigger] self.key_set().contains(
                        source@[j]@,
                    ) by {
                        assert(msg_views(self.messages@)[j].0 == source@[j]@);
                        lemma_kv_value_at(msg_views(self.messages@), j);
                    }
                }
                let ghost src = source@;
                let keys = dedup_names(source);
                proof {
                    lemma_dedup_keys(self.key_set(), src, keys@);
                }
                keys
            },
        }
    }

    /// Index of the entry stored under `key`, if any.
    fn find_key(messages: &Vec<(String, String)>, key: &String) -> (r: Option<usize>)
        ensures
            match r {
                Some(i) => i < messages@.len() && messages@[i as int].0@ == key@,
                None => !kv_map(msg_views(messages@)).contains_key(key@),
            },
    {
        let mut i: usize = 0;
        while i < messages.len()
            invariant
                i <= messages@.len(),
                forall|j: int| 0 <= j < i ==> messages@[j].0@ != key@,
            decreases messages@.len() - i,
        {
            if messages[i].0 == *key {
                return Some(i);
            }
            i += 1;
        }
        proof {
            lemma_kv_contains(msg_views(messages@), key@);
            assert forall|j: int| 0 <= j < msg_views(messages@).len() implies msg_views(
                messages@,
            )[j].0 != key@ by {
                assert(msg_views(messages@)[j].0 == messages@[j].0@);
            }
        }
        None
    }
}

/// Whether some entry of `v` has `s`'s characters.
fn contains_string(v: &Vec<String>, s: &String) -> (b: bool)
    ensures
        b == has_name(v@, s@),
{
    let mut i: usize = 0;
    while i < v.len()
        invariant
            i <= v@.len(),
            forall|j: int| 0 <= j < i ==> v@[j]@ != s@,
        decreases v@.len() - i,
    {
        if v[i] == *s {
            return true;
        }
        i += 1;
    }
    false
}

/// The names of `v` with later repetitions dropped: same names, each once.
fn dedup_names(v: Vec<String>) -> (r: Vec<String>)
    ensures
        forall|a: int, b: int| 0 <= a < b < r@.len() ==> r@[a]@ != r@[b]@,
        forall|a: int| 0 <= a < r@.len() ==> #[trigger] has_name(v@, r@[a]@),
        forall|j: int| 0 <= j < v@.len() ==> #[trigger] has_name(r@, v@[j]@),
{
    let mut r: Vec<String> = Vec::new();
    let mut i: usize = 0;
    while i < v.len()
        invariant
            i <= v@.len(),
            forall|a: int, b: int| 0 <= a < b < r@.len() ==> r@[a]@ != r@[b]@,
            forall|a: int| 0 <= a < r@.len() ==> #[trigger] has_name(v@, r@[a]@),
            forall|j: int| 0 <= j < i ==> #[trigger] has_name(r@, v@[j]@),
        decreases v@.len() - i,
    {
        let ghost pre = r@;
        if !contains_string(&r, &v[i]) {
            r.push(v[i].clone());
            proof {
                assert forall|a: int, b: int| 0 <= a < b < r@.len() implies r@[a]@ != r@[b]@ by {
                    if b == r@.len() - 1 {
                        assert(r@[a] == pre[a]);
                        assert(r@[b]@ == v@[i as int]@);
                    } else {
                        assert(r@[a] == pre[a] && r@[b] == pre[b]);
                    }
                }
                assert forall|a: int| 0 <= a < r@.len() implies #[trigger] has_name(
                    v@,
                    r@[a]@,
                ) by {
                    if a < pre.len() {
                        assert(r@[a] == pre[a]);
                        assert(has_name(v@, pre[a]@));
                    } else {
                        assert(r@[a]@ == v@[i as int]@);
                    }
                }
                assert forall|j: int| 0 <= j < i + 1 implies #[trigger] has_name(
                    r@,
                    v@[j]@,
                ) by {
                    if j < i {
                        assert(has_name(pre, v@[j]@));
                        let c = choose|c: int| 0 <= c < pre.len() && pre[c]@ == v@[j]@;
                        assert(r@[c]@ == v@[j]@);
                    } else {
                        assert(r@[r@.len() - 1]@ == v@[j]@);
                    }
                }
            }
        } else {
            proof {
                assert forall|j: int| 0 <= j < i + 1 implies #[trigger] has_name(
                    r@,
                    v@[j]@,
                ) by {
                    if j == i {
                        assert(has_name(r@, v@[i as int]@));
                    }
                }
            }
        }
        i += 1;
    }
    r
}

/// Deduplication keeps exactly the keys of the gathered names: if the names
/// of `src` are the keys of `ks` and `ded` holds the same names as `src`,
/// then the names of `ded` are the keys of `ks` too.
proof fn lemma_dedup_keys(ks: Set<Seq<char>>, src: Seq<String>, ded: Seq<String>)
    requires
        forall|k: Seq<char>| #[trigger] ks.contains(k) ==> has_name(src, k),
        forall|j: int| 0 <= j < src.len() ==> #[trigger] ks.contains(src[j]@),
        forall|a: int| 0 <= a < ded.len() ==> #[trigger] has_name(src, ded[a]@),
        forall|j: int| 0 <= j < src.len() ==> #[trigger] has_name(ded, src[j]@),
    ensures
        forall|a: int| 0 <= a < ded.len() ==> #[trigger] ks.contains(ded[a]@),
        forall|k: Seq<char>| #[trigger] ks.contains(k) ==> has_name(ded, k),
{
    assert forall|a: int| 0 <= a < ded.len() implies #[trigger] ks.contains(ded[a]@) by {
        assert(has_name(src, ded[a]@));
        let j = choose|j: int| 0 <= j < src.len() && src[j]@ == ded[a]@;
        assert(ks.contains(src[j]@));
    }
    assert forall|k: Seq<char>| #[trigger] ks.contains(k) implies has_name(ded, k) by {
        assert(has_name(src, k));
        let j = choose|j: int| 0 <= j < src.len() && src[j]@ == k;
        assert(has_name(ded, src[j]@));
    }
}

/// Relies on `toml::from_str` into `BTreeMap<String, String>`: on success the
/// document is a TOML table whose values are strings, handed back as its
/// key/value pairs with keys in ascending order — in particular pairwise
/// distinct.
#[verifier::external_body]
fn parse_string_table(content: &str) -> (r: Result<Vec<(String, String)>, toml::de::Error>)
    ensures
        r matches Ok(v) ==> msg_views(v@) == toml_messages(content@) && kv_distinct(
            msg_views(v@),
        ),
{
    toml::from_str::<std::collections::BTreeMap<String, String>>(content).map(|m| {
        m.into_iter().collect()
    })
}

} // verus!
