//! A container of named elements (accounts, commodities, payees) with aliases.
//!
//! Elements are kept under their lowercased name; an alias is a lowercased
//! name that refers to the name of an element.
use vstd::prelude::*;
use std::rc::Rc;
use crate::assoc::{akeys, amap, assoc_find, assoc_set, distinct_keys, lemma_amap_push};
use crate::error::LedgerError;
use crate::models::{HasAliases, HasName};
use crate::money::rc_clone;
use crate::text::{lowercase, pattern_is_match, regex_match, to_lowercase};

verus! {

/// Inserts every alias of `aliases`, lowercased, as a name for `key`.
pub open spec fn alias_fold(m: Map<Seq<char>, Seq<char>>, aliases: Seq<String>, key: Seq<char>) -> Map<
    Seq<char>,
    Seq<char>,
>
    decreases aliases.len(),
{
    if aliases.len() == 0 {
        m
    } else {
        alias_fold(m, aliases.drop_last(), key).insert(lowercase(aliases.last()@), key)
    }
}

/// The alias names after inserting every alias of `aliases`, lowercased: a
/// new one goes at the end, a known one keeps its place.
pub open spec fn alias_keys_fold(ks: Seq<Seq<char>>, aliases: Seq<String>) -> Seq<Seq<char>>
    decreases aliases.len(),
{
    if aliases.len() == 0 {
        ks
    } else {
        let r = alias_keys_fold(ks, aliases.drop_last());
        let a = lowercase(aliases.last()@);
        if r.contains(a) {
            r
        } else {
            r.push(a)
        }
    }
}

/// Every alias after the fold is an old alias or refers to `key`.
pub proof fn lemma_alias_fold(m: Map<Seq<char>, Seq<char>>, aliases: Seq<String>, key: Seq<char>, k: Seq<char>)
    requires
        alias_fold(m, aliases, key).contains_key(k),
    ensures
        alias_fold(m, aliases, key)[k] == key || (m.contains_key(k) && alias_fold(m, aliases, key)[k] == m[k]),
    decreases aliases.len(),
{
    if aliases.len() > 0 {
        if k != lowercase(aliases.last()@) {
            lemma_alias_fold(m, aliases.drop_last(), key, k);
        }
    }
}

/// `i` is the first position of `texts` that `pattern` matches.
pub open spec fn is_first_match(pattern: Seq<char>, texts: Seq<Seq<char>>, i: int) -> bool {
    &&& 0 <= i < texts.len()
    &&& regex_match(pattern, texts[i]) == Some(true)
    &&& forall|j: int| 0 <= j < i ==> regex_match(pattern, #[trigger] texts[j]) != Some(true)
}

/// The first position of `texts` that `pattern` matches.
pub open spec fn first_match(pattern: Seq<char>, texts: Seq<Seq<char>>) -> Option<int> {
    if exists|i: int| is_first_match(pattern, texts, i) {
        Some(choose|i: int| is_first_match(pattern, texts, i))
    } else {
        None
    }
}

/// The element found under a cached name.
pub open spec fn cached_result<T>(items: Map<Seq<char>, Rc<T>>, c: Option<Seq<char>>) -> Option<Rc<T>> {
    match c {
        Some(k) => if items.contains_key(k) {
            Some(items[k])
        } else {
            None
        },
        None => None,
    }
}

pub open spec fn opt_chars(o: Option<String>) -> Option<Seq<char>> {
    match o {
        Some(s) => Some(s@),
        None => None,
    }
}

/// Viewing the values of a map as characters commutes with an insertion.
pub proof fn lemma_map_values_insert(m: Map<Seq<char>, String>, k: Seq<char>, v: String)
    ensures
        m.insert(k, v).map_values(|s: String| s@) == m.map_values(|s: String| s@).insert(k, v@),
{
    assert(m.insert(k, v).map_values(|s: String| s@) =~= m.map_values(|s: String| s@).insert(k, v@));
}

/// Viewing cached names as characters commutes with an insertion.
pub proof fn lemma_cache_insert(m: Map<Seq<char>, Option<String>>, k: Seq<char>, v: Option<String>)
    ensures
        m.insert(k, v).map_values(|o: Option<String>| opt_chars(o)) == m.map_values(
            |o: Option<String>| opt_chars(o),
        ).insert(k, opt_chars(v)),
{
    assert(m.insert(k, v).map_values(|o: Option<String>| opt_chars(o)) =~= m.map_values(
        |o: Option<String>| opt_chars(o),
    ).insert(k, opt_chars(v)));
}

/// Elements known by a name, with aliases and a cache of pattern searches.
#[derive(Debug)]
pub struct List<T> {
    aliases: Vec<(String, String)>,
    list: Vec<(String, Rc<T>)>,
    matches: Vec<(String, Option<String>)>,
}

impl<T> List<T> {
    /// The elements by lowercased name.
    pub closed spec fn items(&self) -> Map<Seq<char>, Rc<T>> {
        amap(self.list@)
    }

    /// The names of the elements, in the order they were added.
    pub closed spec fn keys(&self) -> Seq<Seq<char>> {
        akeys(self.list@)
    }

    /// The element at position `i` of `keys`.
    pub closed spec fn item_at(&self, i: int) -> Rc<T> {
        self.list@[i].1
    }

    /// The aliases: lowercased alias to lowercased element name.
    pub closed spec fn alias_map(&self) -> Map<Seq<char>, Seq<char>> {
        amap(self.aliases@).map_values(|v: String| v@)
    }

    /// The aliases in the order they were added.
    pub closed spec fn alias_keys(&self) -> Seq<Seq<char>> {
        akeys(self.aliases@)
    }

    /// The name the alias at position `i` refers to.
    pub closed spec fn alias_target(&self, i: int) -> Seq<char> {
        self.aliases@[i].1@
    }

    /// What earlier pattern searches found: the name found, or nothing.
    pub closed spec fn cache(&self) -> Map<Seq<char>, Option<Seq<char>>> {
        amap(self.matches@).map_values(|v: Option<String>| opt_chars(v))
    }

    pub closed spec fn wf(&self) -> bool {
        &&& distinct_keys(self.aliases@)
        &&& distinct_keys(self.list@)
        &&& distinct_keys(self.matches@)
    }

    /// Every alias refers to an element of the list.
    pub open spec fn aliases_resolve(&self) -> bool {
        forall|k: Seq<char>| #[trigger]
            self.alias_map().contains_key(k) ==> self.items().contains_key(self.alias_map()[k])
    }

    /// Whether `name` names an element, by its own name or by an alias (the
    /// case of letters does not matter).
    pub open spec fn has_name(&self, name: Seq<char>) -> bool {
        self.items().contains_key(lowercase(name)) || self.alias_map().contains_key(lowercase(name))
    }

    /// The element that `name` names, by its own name or by an alias.
    pub open spec fn named(&self, name: Seq<char>) -> Rc<T> {
        let k = lowercase(name);
        if self.items().contains_key(k) {
            self.items()[k]
        } else {
            self.items()[self.alias_map()[k]]
        }
    }

    /// An empty list.
    pub fn new() -> (res: List<T>)
        ensures
            res.wf(),
            res.items() == Map::<Seq<char>, Rc<T>>::empty(),
            res.keys() == Seq::<Seq<char>>::empty(),
            res.alias_map() == Map::<Seq<char>, Seq<char>>::empty(),
            res.cache() == Map::<Seq<char>, Option<Seq<char>>>::empty(),
    {
        let res = List { aliases: Vec::new(), list: Vec::new(), matches: Vec::new() };
        assert(res.items() =~= Map::<Seq<char>, Rc<T>>::empty());
        assert(res.keys() =~= Seq::<Seq<char>>::empty());
        assert(res.alias_map() =~= Map::<Seq<char>, Seq<char>>::empty());
        assert(res.cache() =~= Map::<Seq<char>, Option<Seq<char>>>::empty());
        res
    }

    /// The number of elements.
    pub fn len(&self) -> (res: usize)
        ensures
            res == self.keys().len(),
            self.wf() ==> res == self.items().dom().len(),
    {
        proof {
            if self.wf() {
                self.lemma_item_count();
            }
        }
        self.list.len()
    }

    /// There are as many names as elements in the map.
    pub proof fn lemma_item_count(&self)
        requires
            self.wf(),
        ensures
            self.keys().len() == self.items().dom().len(),
            self.items().dom().finite(),
    {
        let ks = akeys(self.list@);
        assert(ks.no_duplicates()) by {
            assert forall|i: int, j: int| 0 <= i < ks.len() && 0 <= j < ks.len() && i != j implies ks[i] != ks[j] by {
                if i < j {
                } else {
                }
            }
        }
        ks.unique_seq_to_set();
        assert(ks.to_set() =~= self.items().dom());
    }

    /// The number of elements and aliases.
    pub fn len_alias(&self) -> (res: usize)
        requires
            self.alias_keys().len() + self.keys().len() <= usize::MAX,
        ensures
            res == self.alias_keys().len() + self.keys().len(),
            self.wf() ==> res == self.alias_map().dom().len() + self.keys().len(),
    {
        proof {
            if self.wf() {
                self.lemma_alias_count();
            }
        }
        self.aliases.len() + self.list.len()
    }

    /// There are as many aliases as the alias map holds.
    pub proof fn lemma_alias_count(&self)
        requires
            self.wf(),
        ensures
            self.alias_keys().len() == self.alias_map().dom().len(),
            self.alias_map().dom().finite(),
    {
        let ks = akeys(self.aliases@);
        assert(ks.no_duplicates()) by {
            assert forall|i: int, j: int| 0 <= i < ks.len() && 0 <= j < ks.len() && i != j implies ks[i] != ks[j] by {
                if i < j {
                } else {
                }
            }
        }
        ks.unique_seq_to_set();
        assert(ks.to_set() =~= self.alias_map().dom());
    }

    /// The pairs of lowercased name and element, in the order they were added.
    pub fn iter(&self) -> (res: &Vec<(String, Rc<T>)>)
        ensures
            akeys(res@) == self.keys(),
            amap(res@) == self.items(),
            forall|i: int| 0 <= i < res@.len() ==> res@[i].1 == self.item_at(i),
    {
        &self.list
    }

    /// The elements, in the order they were added.
    pub fn values(&self) -> (res: Vec<Rc<T>>)
        ensures
            res@.len() == self.keys().len(),
            forall|i: int| 0 <= i < res@.len() ==> res@[i] == self.item_at(i),
    {
        let mut res: Vec<Rc<T>> = Vec::new();
        let n = self.list.len();
        for i in 0..n
            invariant
                n == self.list@.len(),
                res@.len() == i,
                forall|j: int| 0 <= j < i ==> res@[j] == self.item_at(j),
        {
            res.push(rc_clone(&self.list[i].1));
        }
        res
    }

    /// Adds every element and alias of `other`; those of `other` win on a
    /// name that both have.
    pub fn append(&mut self, other: &List<T>)
        requires
            old(self).wf(),
            other.wf(),
        ensures
            final(self).wf(),
            final(self).items() == old(self).items().union_prefer_right(other.items()),
            final(self).alias_map() == old(self).alias_map().union_prefer_right(other.alias_map()),
            final(self).cache() == old(self).cache(),
            old(self).aliases_resolve() && other.aliases_resolve() ==> final(self).aliases_resolve(),
    {
        let n = other.list.len();
        for i in 0..n
            invariant
                n == other.list@.len(),
                other.wf(),
                self.wf(),
                self.alias_map() == old(self).alias_map(),
                self.cache() == old(self).cache(),
                self.items() == old(self).items().union_prefer_right(amap(other.list@.take(i as int))),
        {
            let (k, v) = (&other.list[i].0, &other.list[i].1);
            proof {
                let s = other.list@;
                assert(s.take(i + 1) =~= s.take(i as int).push(s[i as int]));
                assert(akeys(s.take(i as int)) =~= akeys(s).take(i as int));
                assert forall|j: int| 0 <= j < i implies akeys(s.take(i as int))[j] != s[i as int].0@ by {
                    assert(akeys(s)[j] == akeys(s.take(i as int))[j]);
                    assert(akeys(s)[i as int] == s[i as int].0@);
                }
                assert forall|a: int, b: int| 0 <= a < b < i implies akeys(s.take(i as int))[a] != akeys(s.take(i as int))[b] by {
                    assert(akeys(s)[a] == akeys(s.take(i as int))[a]);
                    assert(akeys(s)[b] == akeys(s.take(i as int))[b]);
                }
                lemma_amap_push(s.take(i as int), s[i as int].0, s[i as int].1);
            }
            assoc_set(&mut self.list, k.clone(), rc_clone(v));
            proof {
                let s = other.list@;
                assert(self.items() =~= old(self).items().union_prefer_right(amap(s.take(i + 1))));
            }
        }
        assert(other.list@.take(n as int) =~= other.list@);
        let m = other.aliases.len();
        for i in 0..m
            invariant
                m == other.aliases@.len(),
                other.wf(),
                self.wf(),
                self.items() == old(self).items().union_prefer_right(other.items()),
                self.cache() == old(self).cache(),
                self.alias_map() == old(self).alias_map().union_prefer_right(
                    amap(other.aliases@.take(i as int)).map_values(|v: String| v@),
                ),
        {
            let (k, v) = (&other.aliases[i].0, &other.aliases[i].1);
            proof {
                let s = other.aliases@;
                assert(s.take(i + 1) =~= s.take(i as int).push(s[i as int]));
                assert(akeys(s.take(i as int)) =~= akeys(s).take(i as int));
                assert forall|j: int| 0 <= j < i implies akeys(s.take(i as int))[j] != s[i as int].0@ by {
                    assert(akeys(s)[j] == akeys(s.take(i as int))[j]);
                    assert(akeys(s)[i as int] == s[i as int].0@);
                }
                assert forall|a: int, b: int| 0 <= a < b < i implies akeys(s.take(i as int))[a] != akeys(s.take(i as int))[b] by {
                    assert(akeys(s)[a] == akeys(s.take(i as int))[a]);
                    assert(akeys(s)[b] == akeys(s.take(i as int))[b]);
                }
                lemma_amap_push(s.take(i as int), s[i as int].0, s[i as int].1);
            }
            let ghost prev = amap(self.aliases@);
            assoc_set(&mut self.aliases, k.clone(), v.clone());
            proof {
                let s = other.aliases@;
                lemma_map_values_insert(prev, k@, *v);
                lemma_map_values_insert(amap(s.take(i as int)), k@, *v);
                assert(self.alias_map() =~= old(self).alias_map().union_prefer_right(
                    amap(s.take(i + 1)).map_values(|v: String| v@),
                ));
            }
        }
        assert(other.aliases@.take(m as int) =~= other.aliases@);
        proof {
            if old(self).aliases_resolve() && other.aliases_resolve() {
                assert forall|k: Seq<char>| #[trigger] self.alias_map().contains_key(k) implies self.items().contains_key(
                    self.alias_map()[k],
                ) by {
                    if other.alias_map().contains_key(k) {
                        assert(other.items().contains_key(other.alias_map()[k]));
                    } else {
                        assert(old(self).alias_map().contains_key(k));
                        assert(old(self).items().contains_key(old(self).alias_map()[k]));
                    }
                }
            }
        }
    }
}

/// `after` has the elements, the names and the aliases of `before`.
pub open spec fn list_same<T>(before: List<T>, after: List<T>) -> bool {
    &&& after.items() == before.items()
    &&& after.keys() == before.keys()
    &&& after.alias_map() == before.alias_map()
}

/// `after` is `before` once `element` is inserted: under its lowercased
/// name, with its aliases, unless an element has that name already, in which
/// case nothing changes.
pub open spec fn list_added<T: HasName + HasAliases>(before: List<T>, after: List<T>, element: T) -> bool {
    let key = lowercase(element.name());
    if before.items().contains_key(key) {
        list_same(before, after)
    } else {
        &&& after.items().contains_key(key)
        &&& *after.items()[key] == element
        &&& after.items() == before.items().insert(key, after.items()[key])
        &&& after.keys() == before.keys().push(key)
        &&& after.names() == before.names().push(element.name())
        &&& after.alias_map() == alias_fold(before.alias_map(), element.alias_names(), key)
        &&& after.alias_keys() == alias_keys_fold(before.alias_keys(), element.alias_names())
    }
}

impl<T: HasName + HasAliases> List<T> {
    /// Adds `element` under its lowercased name, with its aliases; an
    /// element whose name is already in the list is left out.
    pub fn insert(&mut self, element: T)
        requires
            old(self).wf(),
        ensures
            final(self).wf(),
            final(self).cache() == old(self).cache(),
            list_added(*old(self), *final(self), element),
            old(self).aliases_resolve() ==> final(self).aliases_resolve(),
    {
        let key = to_lowercase(element.get_name());
        match assoc_find(&self.list, key.as_str()) {
            Some(_) => {},
            None => {
                let aliases = element.get_aliases();
                let n = aliases.len();
                for i in 0..n
                    invariant
                        n == aliases@.len(),
                        aliases@ == element.alias_names(),
                        self.wf(),
                        self.list@ == old(self).list@,
                        self.cache() == old(self).cache(),
                        self.alias_map() == alias_fold(old(self).alias_map(), aliases@.take(i as int), key@),
                        self.alias_keys() == alias_keys_fold(old(self).alias_keys(), aliases@.take(i as int)),
                {
                    let a = to_lowercase(aliases[i].as_str());
                    let ghost prev = amap(self.aliases@);
                    assoc_set(&mut self.aliases, a, key.clone());
                    proof {
                        lemma_map_values_insert(prev, a@, key);
                        assert(aliases@.take(i + 1).drop_last() =~= aliases@.take(i as int));
                        assert(self.alias_map() =~= alias_fold(old(self).alias_map(), aliases@.take(i + 1), key@));
                        assert(aliases@.take(i + 1).last() == aliases@[i as int]);
                        assert(self.alias_keys() == alias_keys_fold(old(self).alias_keys(), aliases@.take(i + 1)));
                    }
                }
                assert(aliases@.take(n as int) =~= aliases@);
                let ghost before = self.list@;
                let r = Rc::new(element);
                proof {
                    lemma_amap_push(before, key, r);
                    assert(akeys(before.push((key, r))) =~= akeys(before).push(key@));
                }
                self.list.push((key, r));
                proof {
                    assert(self.names() =~= old(self).names().push(element.name()));
                    assert(aliases@.take(aliases@.len() as int) =~= element.alias_names());
                    if old(self).aliases_resolve() {
                        assert forall|k: Seq<char>| #[trigger] self.alias_map().contains_key(k) implies self.items().contains_key(self.alias_map()[k]) by {
                            lemma_alias_fold(old(self).alias_map(), element.alias_names(), key@, k);
                        }
                    }
                }
            },
        }
    }

    /// Adds `alias` (lowercased) as another name of `for_element`.
    pub fn add_alias(&mut self, alias: String, for_element: &T)
        requires
            old(self).wf(),
            !old(self).alias_map().contains_key(lowercase(alias@)),
        ensures
            final(self).wf(),
            final(self).items() == old(self).items(),
            final(self).keys() == old(self).keys(),
            final(self).cache() == old(self).cache(),
            final(self).alias_map() == old(self).alias_map().insert(lowercase(alias@), lowercase(for_element.name())),
            final(self).alias_keys() == old(self).alias_keys().push(lowercase(alias@)),
            final(self).names() == old(self).names(),
            old(self).aliases_resolve() && old(self).items().contains_key(lowercase(for_element.name()))
                ==> final(self).aliases_resolve(),
    {
        let a = to_lowercase(alias.as_str());
        let target = to_lowercase(for_element.get_name());
        let ghost prev = amap(self.aliases@);
        assoc_set(&mut self.aliases, a, target);
        proof {
            lemma_map_values_insert(prev, a@, target);
        }
    }

    /// Adds `alias` as `add_alias` does when it is not an alias yet; an alias
    /// that is already known is refused and nothing changes.
    pub fn try_add_alias(&mut self, alias: String, for_element: &T) -> (added: bool)
        requires
            old(self).wf(),
        ensures
            final(self).wf(),
            added == !old(self).alias_map().contains_key(lowercase(alias@)),
            final(self).items() == old(self).items(),
            final(self).keys() == old(self).keys(),
            final(self).cache() == old(self).cache(),
            added ==> final(self).alias_map() == old(self).alias_map().insert(lowercase(alias@), lowercase(for_element.name())),
            !added ==> final(self).alias_map() == old(self).alias_map(),
            old(self).aliases_resolve() && old(self).items().contains_key(lowercase(for_element.name()))
                ==> final(self).aliases_resolve(),
    {
        let a = to_lowercase(alias.as_str());
        match assoc_find(&self.aliases, a.as_str()) {
            Some(_) => false,
            None => {
                self.add_alias(alias, for_element);
                true
            },
        }
    }

    /// Whether the lowercased name of `element` is an alias.
    pub fn element_in_list(&self, element: &T) -> (res: bool)
        requires
            self.wf(),
        ensures
            res == self.alias_map().contains_key(lowercase(element.name())),
    {
        let key = to_lowercase(element.get_name());
        assoc_find(&self.aliases, key.as_str()).is_some()
    }

    /// The element named `index`, or named by the alias `index` (the case of
    /// letters does not matter); else the error names `index`.
    pub fn get(&self, index: &str) -> (res: Result<&Rc<T>, LedgerError>)
        requires
            self.wf(),
            self.aliases_resolve(),
        ensures
            ({
                let k = lowercase(index@);
                if self.items().contains_key(k) {
                    res matches Ok(r) && *r == self.items()[k]
                } else if self.alias_map().contains_key(k) {
                    res matches Ok(r) && *r == self.items()[self.alias_map()[k]]
                } else {
                    res matches Err(LedgerError::AliasNotInList(m)) && m@ == str_debug(index@) + " not found"@
                }
            }),
    {
        let key = to_lowercase(index);
        match assoc_find(&self.list, key.as_str()) {
            Some(i) => Ok(&self.list[i].1),
            None => match assoc_find(&self.aliases, key.as_str()) {
                Some(j) => {
                    let target = &self.aliases[j].1;
                    assert(self.alias_map().contains_key(key@));
                    assert(self.alias_map()[key@] == target@);
                    assert(self.items().contains_key(target@));
                    match assoc_find(&self.list, target.as_str()) {
                        Some(i) => Ok(&self.list[i].1),
                        None => Err(LedgerError::AliasNotInList(not_found_message(index))),
                    }
                },
                None => Err(LedgerError::AliasNotInList(not_found_message(index))),
            },
        }
    }
}

impl<T: HasName> List<T> {
    /// The names of the elements as they were written, in list order.
    pub closed spec fn names(&self) -> Seq<Seq<char>> {
        self.list@.map_values(|e: (String, Rc<T>)| (*e.1).name())
    }

    /// The first element whose name matches the regular expression
    /// `pattern`, else the element of the first alias that matches it. The
    /// answer for a pattern is kept: a later search with the same pattern
    /// gives the element found then (or nothing, as then).
    pub fn get_regex(&mut self, pattern: &str) -> (res: Option<Rc<T>>)
        requires
            old(self).wf(),
        ensures
            final(self).wf(),
            final(self).items() == old(self).items(),
            final(self).keys() == old(self).keys(),
            final(self).alias_map() == old(self).alias_map(),
            old(self).cache().contains_key(pattern@) ==> final(self).cache() == old(self).cache()
                && res == cached_result(old(self).items(), old(self).cache()[pattern@]),
            !old(self).cache().contains_key(pattern@) ==> match first_match(pattern@, old(self).names()) {
                Some(i) => res == Some(old(self).item_at(i)) && final(self).cache() == old(self).cache().insert(
                    pattern@,
                    Some(old(self).keys()[i]),
                ),
                None => match first_match(pattern@, old(self).alias_keys()) {
                    Some(j) => res == cached_result(old(self).items(), Some(old(self).alias_target(j)))
                        && final(self).cache() == old(self).cache().insert(
                        pattern@,
                        Some(old(self).alias_target(j)),
                    ),
                    None => res is None && final(self).cache() == old(self).cache().insert(pattern@, None),
                },
            },
    {
        match assoc_find(&self.matches, pattern) {
            Some(c) => {
                assert(self.cache()[pattern@] == opt_chars(self.matches@[c as int].1));
                match &self.matches[c].1 {
                    Some(key) => match assoc_find(&self.list, key.as_str()) {
                        Some(j) => Some(rc_clone(&self.list[j].1)),
                        None => None,
                    },
                    None => None,
                }
            },
            None => {
                let ghost names = self.names();
                let n = self.list.len();
                for i in 0..n
                    invariant
                        n == self.list@.len(),
                        names == self.names(),
                        *self == *old(self),
                        self.wf(),
                        !self.cache().contains_key(pattern@),
                        forall|j: int| 0 <= j < i ==> regex_match(pattern@, #[trigger] names[j]) != Some(true),
                {
                    let name = self.list[i].1.get_name();
                    assert(names[i as int] == name@);
                    match pattern_is_match(pattern, name) {
                        Some(true) => {
                            let key = self.list[i].0.clone();
                            let found = rc_clone(&self.list[i].1);
                            proof {
                                assert(is_first_match(pattern@, names, i as int));
                                let w = choose|w: int| is_first_match(pattern@, names, w);
                                assert(w == i) by {
                                    if w < i {
                                        assert(regex_match(pattern@, names[w]) != Some(true));
                                    }
                                    if w > i {
                                        assert(regex_match(pattern@, names[i as int]) != Some(true));
                                    }
                                }
                                assert(akeys(self.list@)[i as int] == key@);
                            }
                            let ghost prev = amap(self.matches@);
                            assoc_set(&mut self.matches, String::from_str(pattern), Some(key));
                            proof {
                                lemma_cache_insert(prev, pattern@, Some(key));
                            }
                            return Some(found);
                        },
                        _ => {},
                    }
                }
                proof {
                    if exists|w: int| is_first_match(pattern@, names, w) {
                        let w = choose|w: int| is_first_match(pattern@, names, w);
                        assert(regex_match(pattern@, names[w]) != Some(true));
                    }
                }
                let ghost akeys_old = self.alias_keys();
                let m = self.aliases.len();
                for i in 0..m
                    invariant
                        m == self.aliases@.len(),
                        akeys_old == self.alias_keys(),
                        *self == *old(self),
                        self.wf(),
                        !self.cache().contains_key(pattern@),
                        first_match(pattern@, self.names()) is None,
                        forall|j: int| 0 <= j < i ==> regex_match(pattern@, #[trigger] akeys_old[j]) != Some(true),
                {
                    let alias = &self.aliases[i].0;
                    assert(akeys_old[i as int] == alias@);
                    match pattern_is_match(pattern, alias.as_str()) {
                        Some(true) => {
                            let target = self.aliases[i].1.clone();
                            proof {
                                assert(is_first_match(pattern@, akeys_old, i as int));
                                let w = choose|w: int| is_first_match(pattern@, akeys_old, w);
                                assert(w == i) by {
                                    if w < i {
                                        assert(regex_match(pattern@, akeys_old[w]) != Some(true));
                                    }
                                    if w > i {
                                        assert(regex_match(pattern@, akeys_old[i as int]) != Some(true));
                                    }
                                }
                            }
                            let found = match assoc_find(&self.list, target.as_str()) {
                                Some(j) => Some(rc_clone(&self.list[j].1)),
                                None => None,
                            };
                            let ghost prev = amap(self.matches@);
                            assoc_set(&mut self.matches, String::from_str(pattern), Some(target));
                            proof {
                                lemma_cache_insert(prev, pattern@, Some(target));
                            }
                            return found;
                        },
                        _ => {},
                    }
                }
                proof {
                    if exists|w: int| is_first_match(pattern@, akeys_old, w) {
                        let w = choose|w: int| is_first_match(pattern@, akeys_old, w);
                        assert(regex_match(pattern@, akeys_old[w]) != Some(true));
                    }
                }
                let ghost prev = amap(self.matches@);
                assoc_set(&mut self.matches, String::from_str(pattern), None);
                proof {
                    lemma_cache_insert(prev, pattern@, None);
                }
                None
            },
        }
    }
}

/// How `{:?}` (`Debug` for `str`) writes a string: quoted, with its special
/// characters escaped.
pub uninterp spec fn str_debug(s: Seq<char>) -> Seq<char>;

/// `format!("{:?}", index)`: the index as `Debug` writes it (named by
/// `str_debug`).
#[verifier::external_body]
fn debug_text(index: &str) -> (res: String)
    ensures
        res@ == str_debug(index@),
{
    format!("{:?}", index)
}

/// The message of a failed lookup: the index as `Debug` writes it, then
/// ` not found`.
fn not_found_message(index: &str) -> (res: String)
    ensures
        res@ == str_debug(index@) + " not found"@,
{
    let mut m = debug_text(index);
    m.append(" not found");
    m
}

} // verus!
