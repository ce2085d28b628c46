use vstd::prelude::*;
use crate::text::{
    lemma_lex_transitive, lemma_path_order, path_before, path_lt, concat, first_index, is_white_space, lemma_first_index, lemma_first_index_concat, lemma_lines_concat,
    lemma_replace_elements, lemma_replace_last, lemma_replace_round_trip, lemma_single_line,
    lemma_trim_identity, lines, occurs_in, lines_of, replace, replace_all, split_once, str_eq, strip_prefix, trim,
    trim_str,
};

verus! {

/// Entries of a key/value table, each as the views of its key and value.
pub open spec fn entries_view(e: Seq<(String, String)>) -> Seq<(Seq<char>, Seq<char>)> {
    e.map_values(|p: (String, String)| (p.0@, p.1@))
}

/// Position of `k` among the keys of `e`, or -1.
pub open spec fn key_index(e: Seq<(Seq<char>, Seq<char>)>, k: Seq<char>) -> int
    decreases e.len(),
{
    if e.len() == 0 {
        -1
    } else if key_index(e.drop_last(), k) >= 0 {
        key_index(e.drop_last(), k)
    } else if e.last().0 == k {
        e.len() - 1
    } else {
        -1
    }
}

/// The value stored under `k` in `e`.
pub open spec fn lookup(e: Seq<(Seq<char>, Seq<char>)>, k: Seq<char>) -> Option<Seq<char>> {
    if key_index(e, k) >= 0 {
        Some(e[key_index(e, k)].1)
    } else {
        None
    }
}

/// Number of leading entries of `e` whose key comes before `k`.
pub open spec fn lower_bound(e: Seq<(Seq<char>, Seq<char>)>, k: Seq<char>) -> int
    decreases e.len(),
{
    if e.len() > 0 && path_lt(e[0].0, k) {
        1 + lower_bound(e.drop_first(), k)
    } else {
        0
    }
}

/// `e` with `k` set to `v`: an existing entry keeps its place, a new one goes
/// where its key belongs in key order.
pub open spec fn set_entry(e: Seq<(Seq<char>, Seq<char>)>, k: Seq<char>, v: Seq<char>) -> Seq<
    (Seq<char>, Seq<char>),
> {
    if key_index(e, k) >= 0 {
        e.update(key_index(e, k), (k, v))
    } else {
        e.insert(lower_bound(e, k), (k, v))
    }
}

/// Keys strictly increase in the order of their UTF-8 bytes.
pub open spec fn keys_sorted(e: Seq<(Seq<char>, Seq<char>)>) -> bool {
    forall|i: int, j: int| 0 <= i < j < e.len() ==> #[trigger] path_lt(e[i].0, e[j].0)
}

/// No key occurs twice.
pub open spec fn unique_keys(e: Seq<(Seq<char>, Seq<char>)>) -> bool {
    forall|i: int, j: int| 0 <= i < e.len() && 0 <= j < e.len() && i != j ==> e[i].0 != e[j].0
}

/// The entries of `e` as a map.
pub open spec fn to_map(e: Seq<(Seq<char>, Seq<char>)>) -> Map<Seq<char>, Seq<char>> {
    Map::new(|k: Seq<char>| key_index(e, k) >= 0, |k: Seq<char>| e[key_index(e, k)].1)
}

/// The entries of `items` whose key is not a key of `over`, in order.
pub open spec fn not_shadowed(
    items: Seq<(Seq<char>, Seq<char>)>,
    over: Seq<(Seq<char>, Seq<char>)>,
) -> Seq<(Seq<char>, Seq<char>)>
    decreases items.len(),
{
    if items.len() == 0 {
        Seq::empty()
    } else if key_index(over, items.last().0) >= 0 {
        not_shadowed(items.drop_last(), over)
    } else {
        not_shadowed(items.drop_last(), over).push(items.last())
    }
}

proof fn lemma_key_index(e: Seq<(Seq<char>, Seq<char>)>, k: Seq<char>)
    ensures
        -1 <= key_index(e, k) < e.len(),
        key_index(e, k) >= 0 ==> e[key_index(e, k)].0 == k,
        key_index(e, k) >= 0 ==> forall|j: int| 0 <= j < key_index(e, k) ==> e[j].0 != k,
        key_index(e, k) < 0 ==> forall|j: int| 0 <= j < e.len() ==> e[j].0 != k,
    decreases e.len(),
{
    if e.len() > 0 {
        lemma_key_index(e.drop_last(), k);
        assert forall|j: int| 0 <= j < e.len() - 1 implies e.drop_last()[j] == e[j] by {}
    }
}

/// In a table with unique keys, the entry at `i` is found by its key.
proof fn lemma_key_index_unique(e: Seq<(Seq<char>, Seq<char>)>, i: int)
    requires
        unique_keys(e),
        0 <= i < e.len(),
    ensures
        key_index(e, e[i].0) == i,
{
    lemma_key_index(e, e[i].0);
}

proof fn lemma_lower_bound(e: Seq<(Seq<char>, Seq<char>)>, k: Seq<char>)
    ensures
        0 <= lower_bound(e, k) <= e.len(),
        forall|i: int| 0 <= i < lower_bound(e, k) ==> path_lt(#[trigger] e[i].0, k),
        lower_bound(e, k) < e.len() ==> !path_lt(e[lower_bound(e, k)].0, k),
    decreases e.len(),
{
    if e.len() > 0 && path_lt(e[0].0, k) {
        lemma_lower_bound(e.drop_first(), k);
        assert forall|i: int| 0 <= i < lower_bound(e, k) implies path_lt(#[trigger] e[i].0, k) by {
            if i > 0 {
                assert(e[i] == e.drop_first()[i - 1]);
            }
        }
    }
}

/// A scan that stops at the first key not before `k` finds `lower_bound`.
proof fn lemma_lower_bound_at(e: Seq<(Seq<char>, Seq<char>)>, k: Seq<char>, j: int)
    requires
        0 <= j <= e.len(),
        forall|i: int| 0 <= i < j ==> path_lt(#[trigger] e[i].0, k),
        j < e.len() ==> !path_lt(e[j].0, k),
    ensures
        lower_bound(e, k) == j,
    decreases j,
{
    if j > 0 {
        assert(path_lt(e[0].0, k));
        assert forall|i: int| 0 <= i < j - 1 implies path_lt(#[trigger] e.drop_first()[i].0, k) by {
            assert(e.drop_first()[i] == e[i + 1]);
        }
        lemma_lower_bound_at(e.drop_first(), k, j - 1);
    }
}

/// Sorted keys are unique.
proof fn lemma_sorted_unique_keys(e: Seq<(Seq<char>, Seq<char>)>)
    requires
        keys_sorted(e),
    ensures
        unique_keys(e),
{
    assert forall|i: int, j: int| 0 <= i < e.len() && 0 <= j < e.len() && i != j implies e[i].0 != e[j].0 by {
        lemma_path_order(e[i].0, e[j].0);
        if i < j {
            assert(path_lt(e[i].0, e[j].0));
        } else {
            assert(path_lt(e[j].0, e[i].0));
        }
    }
}

pub(crate) proof fn lemma_set_entry(e: Seq<(Seq<char>, Seq<char>)>, k: Seq<char>, v: Seq<char>)
    requires
        keys_sorted(e),
    ensures
        keys_sorted(set_entry(e, k, v)),
        unique_keys(set_entry(e, k, v)),
        lookup(set_entry(e, k, v), k) == Some(v),
        forall|x: Seq<char>| x != k ==> #[trigger] lookup(set_entry(e, k, v), x) == lookup(e, x),
        to_map(set_entry(e, k, v)) == to_map(e).insert(k, v),
{
    let s = set_entry(e, k, v);
    lemma_sorted_unique_keys(e);
    lemma_key_index(e, k);
    lemma_lower_bound(e, k);
    let p = lower_bound(e, k);
    if key_index(e, k) < 0 {
        if p < e.len() {
            lemma_path_order(e[p].0, k);
            assert(path_lt(k, e[p].0));
        }
        assert forall|i: int, j: int| 0 <= i < j < s.len() implies #[trigger] path_lt(s[i].0, s[j].0) by {
            if j < p {
                assert(s[i] == e[i] && s[j] == e[j]);
            } else if j == p {
                assert(s[i] == e[i]);
            } else if i < p {
                assert(s[i] == e[i] && s[j] == e[j - 1]);
                assert(path_lt(e[i].0, e[j - 1].0));
            } else if i == p {
                assert(s[j] == e[j - 1]);
                if j - 1 > p {
                    assert(path_lt(e[p].0, e[j - 1].0));
                    lemma_lex_transitive(
                        vstd::utf8::encode_utf8(k),
                        vstd::utf8::encode_utf8(e[p].0),
                        vstd::utf8::encode_utf8(e[j - 1].0),
                    );
                }
            } else {
                assert(s[i] == e[i - 1] && s[j] == e[j - 1]);
                assert(path_lt(e[i - 1].0, e[j - 1].0));
            }
        }
    } else {
        assert forall|i: int, j: int| 0 <= i < j < s.len() implies #[trigger] path_lt(s[i].0, s[j].0) by {
            assert(s[i].0 == e[i].0 && s[j].0 == e[j].0);
        }
    }
    lemma_sorted_unique_keys(s);
    assert forall|x: Seq<char>| #[trigger] key_index(s, x) >= 0 <==> (key_index(e, x) >= 0 || x == k) by {
        lemma_key_index(s, x);
        lemma_key_index(e, x);
        if key_index(e, x) >= 0 && x != k {
            let i = key_index(e, x);
            if key_index(e, k) >= 0 || i < p {
                assert(s[i].0 == x);
            } else {
                assert(s[i + 1].0 == x);
            }
        }
        if x == k {
            if key_index(e, k) >= 0 {
                assert(s[key_index(e, k)].0 == k);
            } else {
                assert(s[p].0 == k);
            }
        }
        if key_index(s, x) >= 0 && x != k {
            let i = key_index(s, x);
            if key_index(e, k) >= 0 || i < p {
                assert(e[i].0 == x);
            } else {
                assert(e[i - 1].0 == x);
            }
        }
    }
    assert forall|x: Seq<char>| key_index(s, x) >= 0 implies #[trigger] s[key_index(s, x)].1 == (if x == k { v } else { e[key_index(e, x)].1 }) by {
        lemma_key_index(s, x);
        lemma_key_index(e, x);
        if x == k {
            if key_index(e, k) >= 0 {
                lemma_key_index_unique(s, key_index(e, k));
            } else {
                lemma_key_index_unique(s, p);
            }
        } else {
            let i = key_index(e, x);
            if key_index(e, k) >= 0 || i < p {
                assert(s[i] == e[i]);
                lemma_key_index_unique(s, i);
            } else {
                assert(s[i + 1] == e[i]);
                lemma_key_index_unique(s, i + 1);
            }
        }
    }
    assert(lookup(s, k) == Some(v));
    assert forall|x: Seq<char>| x != k implies #[trigger] lookup(s, x) == lookup(e, x) by {
        lemma_key_index(s, x);
        lemma_key_index(e, x);
    }
    assert(to_map(s) =~= to_map(e).insert(k, v));
}

/// Finds the position of `key` among the keys of `e`.
fn find_key(e: &Vec<(String, String)>, key: &str) -> (r: Option<usize>)
    ensures
        r is None <==> key_index(entries_view(e@), key@) < 0,
        r matches Some(i) ==> i == key_index(entries_view(e@), key@) && i < e@.len(),
{
    let ghost v = entries_view(e@);
    proof {
        lemma_key_index(v, key@);
    }
    let mut i: usize = 0;
    while i < e.len()
        invariant
            v == entries_view(e@),
            0 <= i <= e@.len(),
            forall|j: int| 0 <= j < i ==> v[j].0 != key@,
            -1 <= key_index(v, key@) < v.len(),
            key_index(v, key@) >= 0 ==> v[key_index(v, key@)].0 == key@ && forall|j: int|
                0 <= j < key_index(v, key@) ==> v[j].0 != key@,
            key_index(v, key@) < 0 ==> forall|j: int| 0 <= j < v.len() ==> v[j].0 != key@,
        decreases e@.len() - i,
    {
        if str_eq(e[i].0.as_str(), key) {
            proof {
                assert(v[i as int].0 == key@);
            }
            return Some(i);
        }
        i += 1;
    }
    None
}

/// Sets `key` to `value` in `e`, in place when the key is there, else at its
/// place in key order.
fn set_in(e: &mut Vec<(String, String)>, key: &str, value: &str)
    ensures
        entries_view(final(e)@) == set_entry(entries_view(old(e)@), key@, value@),
{
    let ghost v = entries_view(e@);
    match find_key(e, key) {
        Some(i) => {
            e.set(i, (key.to_owned(), value.to_owned()));
            proof {
                assert(entries_view(e@) =~= v.update(i as int, (key@, value@)));
            }
        },
        None => {
            let mut j: usize = 0;
            while j < e.len() && path_before(e[j].0.as_str(), key)
                invariant
                    0 <= j <= e@.len(),
                    v == entries_view(e@),
                    forall|i: int| 0 <= i < j ==> path_lt(#[trigger] v[i].0, key@),
                decreases e@.len() - j,
            {
                j += 1;
            }
            proof {
                lemma_lower_bound_at(v, key@, j as int);
            }
            e.insert(j, (key.to_owned(), value.to_owned()));
            proof {
                assert(entries_view(e@) =~= v.insert(j as int, (key@, value@)));
            }
        },
    }
}

/// A simple key-value store that can be loaded and saved, with an overlay of
/// values that hold for the current run only.
#[derive(Debug)]
pub struct State {
    items: Vec<(String, String)>,
    environment: Vec<(String, String)>,
}

impl State {
    /// Persisted entries, in key order.
    pub closed spec fn items(&self) -> Seq<(Seq<char>, Seq<char>)> {
        entries_view(self.items@)
    }

    /// Entries for the current run only.
    pub closed spec fn environment(&self) -> Seq<(Seq<char>, Seq<char>)> {
        entries_view(self.environment@)
    }

    /// Persisted entries as a map.
    pub open spec fn items_map(&self) -> Map<Seq<char>, Seq<char>> {
        to_map(self.items())
    }

    /// Entries for the current run only, as a map.
    pub open spec fn environment_map(&self) -> Map<Seq<char>, Seq<char>> {
        to_map(self.environment())
    }

    pub open spec fn wf(&self) -> bool {
        keys_sorted(self.items()) && keys_sorted(self.environment())
    }

    /// What `get` finds: the overlay first, then the persisted entries.
    pub open spec fn spec_get(&self, k: Seq<char>) -> Option<Seq<char>> {
        if lookup(self.environment(), k) is Some {
            lookup(self.environment(), k)
        } else {
            lookup(self.items(), k)
        }
    }

    /// All visible entries: the overlay first, then the persisted entries it
    /// does not shadow.
    pub open spec fn spec_entries(&self) -> Seq<(Seq<char>, Seq<char>)> {
        self.environment() + not_shadowed(self.items(), self.environment())
    }

    pub fn new() -> (r: State)
        ensures
            r.wf(),
            r.items() == Seq::<(Seq<char>, Seq<char>)>::empty(),
            r.environment() == Seq::<(Seq<char>, Seq<char>)>::empty(),
    {
        let r = State { items: Vec::new(), environment: Vec::new() };
        proof {
            assert(r.items() =~= Seq::<(Seq<char>, Seq<char>)>::empty());
            assert(r.environment() =~= Seq::<(Seq<char>, Seq<char>)>::empty());
        }
        r
    }

    /// Get `key` entry value.
    pub fn get(&self, key: &str) -> (r: Option<&str>)
        ensures
            r is Some <==> self.spec_get(key@) is Some,
            r matches Some(v) ==> v@ == self.spec_get(key@)->Some_0,
    {
        proof {
            lemma_key_index(self.environment(), key@);
            lemma_key_index(self.items(), key@);
        }
        if let Some(i) = find_key(&self.environment, key) {
            return Some(self.environment[i].1.as_str());
        }
        if let Some(i) = find_key(&self.items, key) {
            return Some(self.items[i].1.as_str());
        }
        None
    }

    /// Set `key` entry to `value`.
    pub fn set(&mut self, key: &str, value: &str)
        requires
            old(self).wf(),
        ensures
            final(self).wf(),
            final(self).items() == set_entry(old(self).items(), key@, value@),
            final(self).items_map() == old(self).items_map().insert(key@, value@),
            final(self).environment() == old(self).environment(),
    {
        proof {
            lemma_set_entry(self.items(), key@, value@);
        }
        set_in(&mut self.items, key, value);
    }

    /// Set `key` entry to `value` for the current run only.
    pub fn set_temporary(&mut self, key: &str, value: &str)
        requires
            old(self).wf(),
        ensures
            final(self).wf(),
            final(self).environment() == set_entry(old(self).environment(), key@, value@),
            final(self).environment_map() == old(self).environment_map().insert(key@, value@),
            final(self).items() == old(self).items(),
    {
        proof {
            lemma_set_entry(self.environment(), key@, value@);
        }
        set_in(&mut self.environment, key, value);
    }

    /// Visible entries: the overlay first, then the persisted entries it does
    /// not shadow.
    pub fn iter(&self) -> (r: Vec<(String, String)>)
        ensures
            entries_view(r@) == self.spec_entries(),
    {
        let mut r: Vec<(String, String)> = Vec::new();
        let mut i: usize = 0;
        while i < self.environment.len()
            invariant
                0 <= i <= self.environment@.len(),
                entries_view(r@) == self.environment().subrange(0, i as int),
            decreases self.environment@.len() - i,
        {
            let (k, v) = (self.environment[i].0.clone(), self.environment[i].1.clone());
            let ghost before = r@;
            r.push((k, v));
            proof {
                assert(entries_view(r@) =~= entries_view(before).push((k@, v@)));
                assert(self.environment().subrange(0, i + 1) =~= self.environment().subrange(0, i as int).push(
                    self.environment()[i as int],
                ));
            }
            i += 1;
        }
        proof {
            assert(self.environment().subrange(0, i as int) =~= self.environment());
        }
        let mut j: usize = 0;
        while j < self.items.len()
            invariant
                0 <= j <= self.items@.len(),
                entries_view(r@) == self.environment() + not_shadowed(
                    self.items().subrange(0, j as int),
                    self.environment(),
                ),
            decreases self.items@.len() - j,
        {
            let ghost before = r@;
            let ghost sub = self.items().subrange(0, j + 1);
            proof {
                assert(sub.drop_last() =~= self.items().subrange(0, j as int));
                assert(sub.last() == self.items()[j as int]);
            }
            if find_key(&self.environment, self.items[j].0.as_str()).is_none() {
                let (k, v) = (self.items[j].0.clone(), self.items[j].1.clone());
                r.push((k, v));
                proof {
                    assert(entries_view(r@) =~= entries_view(before).push((k@, v@)));
                }
            }
            j += 1;
        }
        proof {
            assert(self.items().subrange(0, j as int) =~= self.items());
        }
        r
    }
}

/// `s` after replacing, in turn, each `pairs[i].0` by `pairs[i].1`.
pub open spec fn apply_pairs(s: Seq<char>, pairs: Seq<(Seq<char>, Seq<char>)>) -> Seq<char>
    decreases pairs.len(),
{
    if pairs.len() == 0 {
        s
    } else {
        replace_all(apply_pairs(s, pairs.drop_last()), pairs.last().0, pairs.last().1)
    }
}

/// Each pair with its two sides swapped.
pub open spec fn swapped(pairs: Seq<(Seq<char>, Seq<char>)>) -> Seq<(Seq<char>, Seq<char>)> {
    pairs.map_values(|p: (Seq<char>, Seq<char>)| (p.1, p.0))
}

/// The placeholder that refers to the state key `k`: `$<k>`.
pub open spec fn placeholder(k: Seq<char>) -> Seq<char> {
    "$<"@ + k + ">"@
}

/// Each state entry as a (placeholder, value) pair.
pub open spec fn placeholder_pairs(entries: Seq<(Seq<char>, Seq<char>)>) -> Seq<(Seq<char>, Seq<char>)> {
    entries.map_values(|p: (Seq<char>, Seq<char>)| (placeholder(p.0), p.1))
}

/// Placeholders of `v` resolved: the symbols first, then the state's entries.
pub open spec fn configured(
    v: Seq<char>,
    symbols: Seq<(Seq<char>, Seq<char>)>,
    entries: Seq<(Seq<char>, Seq<char>)>,
) -> Seq<char> {
    apply_pairs(v, symbols + placeholder_pairs(entries))
}

/// Resolved values turned back into placeholders: the state's entries first,
/// then the symbols.
pub open spec fn unconfigured(
    v: Seq<char>,
    symbols: Seq<(Seq<char>, Seq<char>)>,
    entries: Seq<(Seq<char>, Seq<char>)>,
) -> Seq<char> {
    apply_pairs(v, swapped(placeholder_pairs(entries)) + swapped(symbols))
}

/// Fixed placeholders resolved besides state values, such as the project root.
#[derive(Debug)]
pub struct Symbols {
    entries: Vec<(String, String)>,
}

impl Symbols {
    /// (placeholder, value) pairs, in the order in which they are applied.
    pub closed spec fn view(&self) -> Seq<(Seq<char>, Seq<char>)> {
        entries_view(self.entries@)
    }

    /// The table that resolves `$<root>` to `root`.
    pub fn with_root(root: &str) -> (r: Symbols)
        ensures
            r.view() == seq![("$<root>"@, root@)],
    {
        let entries = vec![("$<root>".to_owned(), root.to_owned())];
        let r = Symbols { entries };
        proof {
            assert(r.view() =~= seq![("$<root>"@, root@)]);
        }
        r
    }

    /// A table with no placeholder.
    pub fn empty() -> (r: Symbols)
        ensures
            r.view() == Seq::<(Seq<char>, Seq<char>)>::empty(),
    {
        let r = Symbols { entries: Vec::new() };
        proof {
            assert(r.view() =~= Seq::<(Seq<char>, Seq<char>)>::empty());
        }
        r
    }
}

/// Replaces, in turn, the first side of each pair by the second (or the
/// second by the first when `back` is set).
fn apply_all(value: String, pairs: &Vec<(String, String)>, back: bool) -> (r: String)
    ensures
        !back ==> r@ == apply_pairs(value@, entries_view(pairs@)),
        back ==> r@ == apply_pairs(value@, swapped(entries_view(pairs@))),
{
    let mut it = value;
    let mut i: usize = 0;
    let ghost e = entries_view(pairs@);
    while i < pairs.len()
        invariant
            0 <= i <= pairs@.len(),
            e == entries_view(pairs@),
            !back ==> it@ == apply_pairs(value@, e.subrange(0, i as int)),
            back ==> it@ == apply_pairs(value@, swapped(e).subrange(0, i as int)),
        decreases pairs@.len() - i,
    {
        proof {
            assert(e.subrange(0, i + 1).drop_last() =~= e.subrange(0, i as int));
            assert(swapped(e).subrange(0, i + 1).drop_last() =~= swapped(e).subrange(0, i as int));
        }
        if back {
            it = replace(it.as_str(), pairs[i].1.as_str(), pairs[i].0.as_str());
        } else {
            it = replace(it.as_str(), pairs[i].0.as_str(), pairs[i].1.as_str());
        }
        i += 1;
    }
    proof {
        assert(e.subrange(0, i as int) =~= e);
        assert(swapped(e).subrange(0, i as int) =~= swapped(e));
    }
    it
}

/// Each entry as a (placeholder, value) pair.
fn placeholders_of(entries: &Vec<(String, String)>) -> (r: Vec<(String, String)>)
    ensures
        entries_view(r@) == placeholder_pairs(entries_view(entries@)),
{
    let mut r: Vec<(String, String)> = Vec::new();
    let mut i: usize = 0;
    while i < entries.len()
        invariant
            0 <= i <= entries@.len(),
            entries_view(r@) == placeholder_pairs(entries_view(entries@)).subrange(0, i as int),
        decreases entries@.len() - i,
    {
        let p = concat(&concat("$<", entries[i].0.as_str()), ">");
        let ghost before = r@;
        r.push((p, entries[i].1.clone()));
        proof {
            reveal_strlit("$<");
            reveal_strlit(">");
            assert(entries_view(r@) =~= entries_view(before).push((p@, entries[i as int].1@)));
            assert(placeholder_pairs(entries_view(entries@)).subrange(0, i + 1) =~= placeholder_pairs(
                entries_view(entries@),
            ).subrange(0, i as int).push((placeholder(entries[i as int].0@), entries[i as int].1@)));
        }
        i += 1;
    }
    proof {
        assert(placeholder_pairs(entries_view(entries@)).subrange(0, i as int) =~= placeholder_pairs(
            entries_view(entries@),
        ));
    }
    r
}

proof fn lemma_apply_pairs_append(
    s: Seq<char>,
    a: Seq<(Seq<char>, Seq<char>)>,
    b: Seq<(Seq<char>, Seq<char>)>,
)
    ensures
        apply_pairs(s, a + b) == apply_pairs(apply_pairs(s, a), b),
    decreases b.len(),
{
    if b.len() > 0 {
        assert((a + b).drop_last() =~= a + b.drop_last());
        lemma_apply_pairs_append(s, a, b.drop_last());
    } else {
        assert(a + b =~= a);
    }
}

/// Resolves placeholders in `value`: the symbols first, then, when a state is
/// given, `$<key>` for each of its visible entries.
pub fn configure(value: &str, symbols: &Symbols, state: Option<&State>) -> (r: String)
    ensures
        state is None ==> r@ == configured(value@, symbols.view(), Seq::empty()),
        state matches Some(st) ==> r@ == configured(value@, symbols.view(), st.spec_entries()),
{
    let it = apply_all(value.to_owned(), &symbols.entries, false);
    match state {
        None => {
            proof {
                assert(symbols.view() + placeholder_pairs(Seq::empty()) =~= symbols.view());
            }
            it
        },
        Some(st) => {
            let entries = st.iter();
            let pairs = placeholders_of(&entries);
            let r = apply_all(it, &pairs, false);
            proof {
                lemma_apply_pairs_append(value@, symbols.view(), placeholder_pairs(st.spec_entries()));
            }
            r
        },
    }
}

/// Turns resolved values in `value` back into placeholders: when a state is
/// given each of its visible values into `$<key>` first, then the symbols.
pub fn unconfigure(value: &str, symbols: &Symbols, state: Option<&State>) -> (r: String)
    ensures
        state is None ==> r@ == unconfigured(value@, symbols.view(), Seq::empty()),
        state matches Some(st) ==> r@ == unconfigured(value@, symbols.view(), st.spec_entries()),
{
    match state {
        None => {
            let r = apply_all(value.to_owned(), &symbols.entries, true);
            proof {
                assert(swapped(placeholder_pairs(Seq::empty())) + swapped(symbols.view()) =~= swapped(
                    symbols.view(),
                ));
            }
            r
        },
        Some(st) => {
            let entries = st.iter();
            let pairs = placeholders_of(&entries);
            let it = apply_all(value.to_owned(), &pairs, true);
            let r = apply_all(it, &symbols.entries, true);
            proof {
                lemma_apply_pairs_append(
                    value@,
                    swapped(placeholder_pairs(st.spec_entries())),
                    swapped(symbols.view()),
                );
            }
            r
        },
    }
}

/// The part of a line before any `#` comment, trimmed.
pub open spec fn line_expr(l: Seq<char>) -> Seq<char> {
    let t = trim(l);
    if first_index(t, '#') >= 0 {
        trim(t.subrange(0, first_index(t, '#')))
    } else {
        t
    }
}

/// The line holds no entry: it is blank or a comment.
pub open spec fn is_blank(l: Seq<char>) -> bool {
    line_expr(l).len() == 0
}

/// Text after the first `=` of `e`.
pub open spec fn after_eq(e: Seq<char>) -> Seq<char> {
    e.subrange(first_index(e, '=') + 1, e.len() as int)
}

/// The line is blank, or holds exactly one `=`.
pub open spec fn is_well_formed(l: Seq<char>) -> bool {
    is_blank(l) || (first_index(line_expr(l), '=') >= 0 && first_index(after_eq(line_expr(l)), '=') < 0)
}

/// Key of an entry line: the text before its `=`.
pub open spec fn line_key(l: Seq<char>) -> Seq<char> {
    line_expr(l).subrange(0, first_index(line_expr(l), '='))
}

/// Value of an entry line: the text after its `=`.
pub open spec fn line_value(l: Seq<char>) -> Seq<char> {
    after_eq(line_expr(l))
}

/// Persisted entries read from `ls`, later lines overriding earlier ones,
/// values with their symbols resolved.
pub open spec fn loaded(ls: Seq<Seq<char>>, symbols: Seq<(Seq<char>, Seq<char>)>) -> Seq<
    (Seq<char>, Seq<char>),
>
    decreases ls.len(),
{
    if ls.len() == 0 {
        Seq::empty()
    } else if is_blank(ls.last()) {
        loaded(ls.drop_last(), symbols)
    } else {
        set_entry(
            loaded(ls.drop_last(), symbols),
            line_key(ls.last()),
            configured(line_value(ls.last()), symbols, Seq::empty()),
        )
    }
}

/// The text that `save_text` writes for `items`: one `key=value` line each,
/// values with resolved symbols turned back into placeholders.
pub open spec fn saved(items: Seq<(Seq<char>, Seq<char>)>, symbols: Seq<(Seq<char>, Seq<char>)>) -> Seq<
    char,
>
    decreases items.len(),
{
    if items.len() == 0 {
        Seq::empty()
    } else {
        saved(items.drop_last(), symbols) + items.last().0 + "="@ + unconfigured(
            items.last().1,
            symbols,
            Seq::empty(),
        ) + "\n"@
    }
}

/// Environment variables that carry `prefix`, with the prefix removed and
/// their symbols resolved, applied in turn to `over`.
pub open spec fn imported(
    over: Seq<(Seq<char>, Seq<char>)>,
    vars: Seq<(Seq<char>, Seq<char>)>,
    prefix: Seq<char>,
    symbols: Seq<(Seq<char>, Seq<char>)>,
) -> Seq<(Seq<char>, Seq<char>)>
    decreases vars.len(),
{
    if vars.len() == 0 {
        over
    } else {
        let before = imported(over, vars.drop_last(), prefix, symbols);
        let (k, v) = vars.last();
        if prefix.len() <= k.len() && k.subrange(0, prefix.len() as int) == prefix {
            set_entry(before, k.subrange(prefix.len() as int, k.len() as int), configured(v, symbols, Seq::empty()))
        } else {
            before
        }
    }
}

/// A line of a state file that holds neither an entry nor a comment.
#[derive(Debug, Clone, Copy, PartialEq, Eq, Structural)]
pub struct LoadError {
    /// Zero-based number of the offending line.
    pub line: usize,
}

/// Prefix of the environment variables that override persisted values.
pub const ENV_PREFIX: &'static str = "XTASK_";

impl State {
    /// Parses a state file: one `key=value` entry per line, `#` starting a
    /// comment, blank lines ignored; symbols in values are resolved. A line
    /// that holds text but not exactly one `=` is an error.
    pub fn load(text: &str, symbols: &Symbols) -> (r: Result<State, LoadError>)
        ensures
            r is Ok <==> forall|i: int| 0 <= i < lines_of(text@).len() ==> is_well_formed(#[trigger] lines_of(text@)[i]),
            r matches Ok(st) ==> st.wf() && st.items() == loaded(lines_of(text@), symbols.view())
                && st.environment().len() == 0,
            r matches Err(e) ==> e.line < lines_of(text@).len() && !is_well_formed(lines_of(text@)[e.line as int])
                && forall|i: int| 0 <= i < e.line ==> is_well_formed(#[trigger] lines_of(text@)[i]),
    {
        let ls = lines(text);
        let ghost spec_lines = lines_of(text@);
        let mut st = State::new();
        let mut i: usize = 0;
        while i < ls.len()
            invariant
                spec_lines == lines_of(text@),
                ls@.len() == spec_lines.len(),
                forall|k: int| 0 <= k < ls@.len() ==> (#[trigger] ls@[k])@ == spec_lines[k],
                0 <= i <= ls@.len(),
                st.wf(),
                st.items() == loaded(spec_lines.subrange(0, i as int), symbols.view()),
                st.environment().len() == 0,
                forall|k: int| 0 <= k < i ==> is_well_formed(#[trigger] spec_lines[k]),
            decreases ls@.len() - i,
        {
            let l = ls[i];
            let ghost sub = spec_lines.subrange(0, i + 1);
            proof {
                assert(sub.drop_last() =~= spec_lines.subrange(0, i as int));
                assert(sub.last() == l@);
            }
            let t = trim_str(l);
            let expr = match split_once(t, '#') {
                Some((before, after)) => {
                    proof {
                        assert(before@ =~= (before@ + seq!['#'] + after@).subrange(0, before@.len() as int));
                    }
                    trim_str(before)
                },
                None => t,
            };
            proof {
                assert(expr@ == line_expr(l@));
            }
            if !expr.is_empty() {
                match split_once(expr, '=') {
                    None => {
                        proof {
                            assert(!is_well_formed(spec_lines[i as int]));
                        }
                        return Err(LoadError { line: i });
                    },
                    Some((k, v)) => {
                        proof {
                            assert(v@ =~= after_eq(expr@));
                            assert(k@ =~= expr@.subrange(0, first_index(expr@, '=')));
                        }
                        if split_once(v, '=').is_some() {
                            proof {
                                assert(!is_well_formed(spec_lines[i as int]));
                            }
                            return Err(LoadError { line: i });
                        }
                        let value = configure(v, symbols, None);
                        st.set(k, value.as_str());
                    },
                }
            }
            i += 1;
        }
        proof {
            assert(spec_lines.subrange(0, i as int) =~= spec_lines);
        }
        Ok(st)
    }

    /// The text of the state file: a `key=value` line for each persisted
    /// entry, resolved symbols turned back into placeholders. Values for the
    /// current run only are not written.
    pub fn save_text(&self, symbols: &Symbols) -> (r: String)
        ensures
            r@ == saved(self.items(), symbols.view()),
    {
        let mut out = String::new();
        let mut i: usize = 0;
        while i < self.items.len()
            invariant
                0 <= i <= self.items@.len(),
                out@ == saved(self.items().subrange(0, i as int), symbols.view()),
            decreases self.items@.len() - i,
        {
            let v = unconfigure(self.items[i].1.as_str(), symbols, None);
            let ghost before = out@;
            out.append(self.items[i].0.as_str());
            out.append("=");
            out.append(v.as_str());
            out.append("\n");
            proof {
                let sub = self.items().subrange(0, i + 1);
                assert(sub.drop_last() =~= self.items().subrange(0, i as int));
                assert(sub.last() == self.items()[i as int]);
                assert(out@ =~= before + self.items()[i as int].0 + "="@ + v@ + "\n"@);
            }
            i += 1;
        }
        proof {
            assert(self.items().subrange(0, i as int) =~= self.items());
        }
        out
    }

    /// Imports the variables named with `ENV_PREFIX` into the values for the
    /// current run, without the prefix and with their symbols resolved.
    pub fn import_environment(&mut self, vars: &Vec<(String, String)>, symbols: &Symbols)
        requires
            old(self).wf(),
        ensures
            final(self).wf(),
            final(self).items() == old(self).items(),
            final(self).environment() == imported(old(self).environment(), entries_view(vars@), ENV_PREFIX@, symbols.view()),
    {
        let ghost start = self.environment();
        let ghost e = entries_view(vars@);
        let mut i: usize = 0;
        while i < vars.len()
            invariant
                0 <= i <= vars@.len(),
                e == entries_view(vars@),
                self.wf(),
                self.items() == old(self).items(),
                self.environment() == imported(start, e.subrange(0, i as int), ENV_PREFIX@, symbols.view()),
            decreases vars@.len() - i,
        {
            proof {
                let sub = e.subrange(0, i + 1);
                assert(sub.drop_last() =~= e.subrange(0, i as int));
                assert(sub.last() == e[i as int]);
            }
            match strip_prefix(vars[i].0.as_str(), ENV_PREFIX) {
                Some(k) => {
                    let v = configure(vars[i].1.as_str(), symbols, None);
                    self.set_temporary(k, v.as_str());
                },
                None => {},
            }
            i += 1;
        }
        proof {
            assert(e.subrange(0, i as int) =~= e);
        }
    }
}

/// The state of one process together with the symbols it resolves; created
/// once at start and handed to whatever reads or writes state.
#[derive(Debug)]
pub struct GlobalState {
    pub state: State,
    pub symbols: Symbols,
}

impl GlobalState {
    /// Reads the state file's text, or starts empty when there is no file.
    pub fn open(text: Option<&str>, symbols: Symbols) -> (r: Result<GlobalState, LoadError>)
        ensures
            text is None ==> (r matches Ok(g) && g.state.wf() && g.state.items().len() == 0
                && g.state.environment().len() == 0 && g.symbols.view() == symbols.view()),
            text matches Some(t) ==> (r is Ok <==> forall|i: int|
                0 <= i < lines_of(t@).len() ==> is_well_formed(#[trigger] lines_of(t@)[i])),
            text matches Some(t) ==> (r matches Ok(g) ==> g.state.wf() && g.state.items() == loaded(
                lines_of(t@),
                symbols.view(),
            ) && g.state.environment().len() == 0 && g.symbols.view() == symbols.view()),
    {
        match text {
            None => Ok(GlobalState { state: State::new(), symbols }),
            Some(t) => match State::load(t, &symbols) {
                Ok(state) => Ok(GlobalState { state, symbols }),
                Err(e) => Err(e),
            },
        }
    }

    /// Shared access to the state.
    pub fn as_ref(&self) -> (r: &State)
        ensures
            *r == self.state,
    {
        &self.state
    }

    /// Exclusive access to the state.
    pub fn as_mut(&mut self) -> (r: &mut State)
        ensures
            *r == old(self).state,
            final(self).state == *final(r),
            final(self).symbols == old(self).symbols,
    {
        &mut self.state
    }

    /// Value of `key`: the current run's value first, then the persisted one.
    pub fn get(&self, key: &str) -> (r: Option<String>)
        ensures
            r is Some <==> self.state.spec_get(key@) is Some,
            r matches Some(v) ==> v@ == self.state.spec_get(key@)->Some_0,
    {
        match self.state.get(key) {
            Some(v) => Some(v.to_owned()),
            None => None,
        }
    }

    /// Persists `key` with `value`.
    pub fn set(&mut self, key: &str, value: &str)
        requires
            old(self).state.wf(),
        ensures
            final(self).state.wf(),
            final(self).state.items_map() == old(self).state.items_map().insert(key@, value@),
            final(self).state.items() == set_entry(old(self).state.items(), key@, value@),
            final(self).state.environment() == old(self).state.environment(),
            final(self).symbols == old(self).symbols,
    {
        self.state.set(key, value);
    }

    /// Sets `key` to `value` for the current run only.
    pub fn set_temporary(&mut self, key: &str, value: &str)
        requires
            old(self).state.wf(),
        ensures
            final(self).state.wf(),
            final(self).state.environment_map() == old(self).state.environment_map().insert(key@, value@),
            final(self).state.environment() == set_entry(old(self).state.environment(), key@, value@),
            final(self).state.items() == old(self).state.items(),
            final(self).symbols == old(self).symbols,
    {
        self.state.set_temporary(key, value);
    }

    /// The text to write back to the state file.
    pub fn save(&self) -> (r: String)
        ensures
            r@ == saved(self.state.items(), self.symbols.view()),
    {
        self.state.save_text(&self.symbols)
    }

    /// `value` with the symbols and this state's values resolved.
    pub fn configure(&self, value: &str) -> (r: String)
        ensures
            r@ == configured(value@, self.symbols.view(), self.state.spec_entries()),
    {
        configure(value, &self.symbols, Some(&self.state))
    }
}

/// The symbol table that resolves `$<root>` to `root`.
pub open spec fn root_symbols(root: Seq<char>) -> Seq<(Seq<char>, Seq<char>)> {
    seq![("$<root>"@, root)]
}

/// A key that a state file line can hold: no separator, comment sign or line
/// break, and no white space in front.
pub open spec fn storable_key(k: Seq<char>) -> bool {
    &&& !k.contains('=') && !k.contains('#') && !k.contains('\n') && !k.contains('\r')
    &&& k.len() == 0 || !is_white_space(k[0])
}

/// A value that a state file line can hold: no separator, comment sign or
/// line break, no literal `$<root>`, and no white space at its end.
pub open spec fn storable_value(v: Seq<char>) -> bool {
    &&& !v.contains('=') && !v.contains('#') && !v.contains('\n') && !v.contains('\r')
    &&& !occurs_in(v, "$<root>"@)
    &&& v.len() == 0 || !is_white_space(v.last())
}

/// The line that `save_text` writes for an entry, without its line feed.
pub open spec fn entry_line(e: (Seq<char>, Seq<char>), symbols: Seq<(Seq<char>, Seq<char>)>) -> Seq<char> {
    e.0 + "="@ + unconfigured(e.1, symbols, Seq::empty())
}

proof fn lemma_not_in_concat(a: Seq<char>, b: Seq<char>, c: char)
    requires
        !a.contains(c),
        !b.contains(c),
    ensures
        !(a + b).contains(c),
{
    if (a + b).contains(c) {
        let i = choose|i: int| 0 <= i < (a + b).len() && (a + b)[i] == c;
        if i < a.len() {
            assert(a[i] == c);
        } else {
            assert(b[i - a.len()] == c);
        }
    }
}

/// The saved line of a storable entry reads back as that entry.
proof fn lemma_entry_line(k: Seq<char>, v: Seq<char>, root: Seq<char>)
    requires
        storable_key(k),
        storable_value(v),
        root.len() > 0,
    ensures
        ({
            let l = entry_line((k, v), root_symbols(root));
            &&& !l.contains('\n')
            &&& l.len() > 0 && l.last() != '\r'
            &&& !is_blank(l)
            &&& is_well_formed(l)
            &&& line_key(l) == k
            &&& configured(line_value(l), root_symbols(root), Seq::empty()) == v
        }),
{
    reveal_strlit("$<root>");
    reveal_strlit("=");
    let sym = root_symbols(root);
    let p = "$<root>"@;
    assert(p =~= seq!['$', '<', 'r', 'o', 'o', 't', '>']);
    let none = Seq::<(Seq<char>, Seq<char>)>::empty();
    let q = swapped(placeholder_pairs(none)) + swapped(sym);
    assert(q =~= seq![(root, p)]);
    assert(q.drop_last() =~= none);
    assert(apply_pairs(v, q.drop_last()) == v);
    let w = replace_all(v, root, p);
    assert(apply_pairs(v, q) == w);
    assert(unconfigured(v, sym, none) == w);
    let q2 = sym + placeholder_pairs(none);
    assert(q2 =~= sym);
    assert(q2.drop_last() =~= none);
    assert(apply_pairs(w, q2.drop_last()) == w);
    assert(configured(w, sym, none) == replace_all(w, p, root));
    assert(!p.drop_first().contains(p[0])) by {
        if p.drop_first().contains(p[0]) {
            let i = choose|i: int| 0 <= i < p.drop_first().len() && p.drop_first()[i] == p[0];
        }
    }
    lemma_replace_round_trip(v, root, p);
    assert(!p.contains('=') && !p.contains('#') && !p.contains('\n') && !p.contains('\r')) by {
        if p.contains('=') || p.contains('#') || p.contains('\n') || p.contains('\r') {
            let i = choose|i: int| 0 <= i < p.len() && (p[i] == '=' || p[i] == '#' || p[i] == '\n' || p[i] == '\r');
        }
    }
    lemma_replace_elements(v, root, p, '=');
    lemma_replace_elements(v, root, p, '#');
    lemma_replace_elements(v, root, p, '\n');
    lemma_replace_elements(v, root, p, '\r');
    if v.len() > 0 {
        lemma_replace_last(v, root, p);
    } else {
        assert(w =~= v);
    }
    let eq = seq!['='];
    assert("="@ =~= eq);
    let l = k + eq + w;
    assert(entry_line((k, v), sym) =~= l);
    assert(!eq.contains('\n') && !eq.contains('#') && !eq.contains('\r')) by {
        if eq.contains('\n') || eq.contains('#') || eq.contains('\r') {
            let i = choose|i: int| 0 <= i < eq.len() && (eq[i] == '\n' || eq[i] == '#' || eq[i] == '\r');
        }
    }
    lemma_not_in_concat(k, eq, '\n');
    lemma_not_in_concat(k + eq, w, '\n');
    lemma_not_in_concat(k, eq, '#');
    lemma_not_in_concat(k + eq, w, '#');
    assert(l.len() > 0);
    if w.len() > 0 {
        assert(l.last() == w.last());
    } else {
        assert(l.last() == '=');
    }
    if k.len() > 0 {
        assert(l[0] == k[0]);
    } else {
        assert(l[0] == '=');
    }
    assert(l.last() != '\r');
    lemma_trim_identity(l);
    lemma_first_index(l, '#');
    assert(line_expr(l) == l);
    lemma_first_index(k, '=');
    lemma_first_index_concat(k, eq + w, '=');
    assert(first_index(eq + w, '=') == 0);
    assert(k + (eq + w) =~= l);
    assert(first_index(l, '=') == k.len());
    assert(after_eq(l) =~= w);
    assert(line_key(l) =~= k);
    lemma_first_index(w, '=');
}

proof fn lemma_saved_lines(items: Seq<(Seq<char>, Seq<char>)>, root: Seq<char>)
    requires
        root.len() > 0,
        forall|i: int| 0 <= i < items.len() ==> storable_key(#[trigger] items[i].0) && storable_value(items[i].1),
    ensures
        saved(items, root_symbols(root)).len() == 0 || saved(items, root_symbols(root)).last() == '\n',
        lines_of(saved(items, root_symbols(root))) == items.map_values(
            |e: (Seq<char>, Seq<char>)| entry_line(e, root_symbols(root)),
        ),
    decreases items.len(),
{
    let sym = root_symbols(root);
    let f = |e: (Seq<char>, Seq<char>)| entry_line(e, sym);
    if items.len() == 0 {
        assert(lines_of(Seq::<char>::empty()) =~= Seq::<Seq<char>>::empty());
        assert(items.map_values(f) =~= Seq::<Seq<char>>::empty());
    } else {
        let prefix = items.drop_last();
        lemma_saved_lines(prefix, root);
        let e = items.last();
        assert(storable_key(items[items.len() - 1].0));
        lemma_entry_line(e.0, e.1, root);
        let l = entry_line(e, sym);
        reveal_strlit("\n");
        assert("\n"@ =~= seq!['\n']);
        assert(saved(items, sym) =~= saved(prefix, sym) + (l + seq!['\n']));
        lemma_lines_concat(saved(prefix, sym), l + seq!['\n']);
        lemma_single_line(l);
        assert(items.map_values(f) =~= prefix.map_values(f).push(l));
    }
}

proof fn lemma_loaded_lines(items: Seq<(Seq<char>, Seq<char>)>, root: Seq<char>)
    requires
        root.len() > 0,
        keys_sorted(items),
        forall|i: int| 0 <= i < items.len() ==> storable_key(#[trigger] items[i].0) && storable_value(items[i].1),
    ensures
        ({
            let ls = items.map_values(|e: (Seq<char>, Seq<char>)| entry_line(e, root_symbols(root)));
            &&& forall|i: int| 0 <= i < ls.len() ==> is_well_formed(#[trigger] ls[i])
            &&& loaded(ls, root_symbols(root)) == items
        }),
    decreases items.len(),
{
    let sym = root_symbols(root);
    let f = |e: (Seq<char>, Seq<char>)| entry_line(e, sym);
    let ls = items.map_values(f);
    if items.len() == 0 {
        assert(loaded(ls, sym) =~= items);
    } else {
        let prefix = items.drop_last();
        assert(keys_sorted(prefix)) by {
            assert forall|i: int, j: int| 0 <= i < j < prefix.len() implies #[trigger] path_lt(prefix[i].0, prefix[j].0) by {
                assert(path_lt(items[i].0, items[j].0));
            }
        }
        lemma_sorted_unique_keys(items);
        assert forall|i: int| 0 <= i < prefix.len() implies storable_key(#[trigger] prefix[i].0) && storable_value(
            prefix[i].1,
        ) by {
            assert(storable_key(items[i].0));
        }
        lemma_loaded_lines(prefix, root);
        assert(ls.drop_last() =~= prefix.map_values(f));
        let e = items.last();
        assert(storable_key(items[items.len() - 1].0));
        lemma_entry_line(e.0, e.1, root);
        assert(ls.last() == entry_line(e, sym));
        lemma_key_index(prefix, e.0);
        if key_index(prefix, e.0) >= 0 {
            assert(items[key_index(prefix, e.0)].0 == items[items.len() - 1].0);
        }
        assert forall|i: int| 0 <= i < prefix.len() implies path_lt(#[trigger] prefix[i].0, e.0) by {
            assert(path_lt(items[i].0, items[items.len() - 1].0));
        }
        lemma_lower_bound_at(prefix, e.0, prefix.len() as int);
        assert(prefix.insert(prefix.len() as int, e) =~= items);
        assert forall|i: int| 0 <= i < ls.len() implies is_well_formed(#[trigger] ls[i]) by {
            if i < ls.len() - 1 {
                assert(ls[i] == prefix.map_values(f)[i]);
            }
        }
    }
}

/// Saving the persisted entries and loading the text back, with the same
/// project root, gives the same entries in the same order: values holding the
/// root are written with the `$<root>` placeholder and resolved again on
/// load. Holds for keys and values that a line can carry (see
/// `storable_key` and `storable_value`).
pub proof fn lemma_save_load_round_trip(items: Seq<(Seq<char>, Seq<char>)>, root: Seq<char>)
    requires
        root.len() > 0,
        keys_sorted(items),
        forall|i: int| 0 <= i < items.len() ==> storable_key(#[trigger] items[i].0) && storable_value(items[i].1),
    ensures
        ({
            let ls = lines_of(saved(items, root_symbols(root)));
            &&& forall|i: int| 0 <= i < ls.len() ==> is_well_formed(#[trigger] ls[i])
            &&& loaded(ls, root_symbols(root)) == items
        }),
{
    lemma_saved_lines(items, root);
    lemma_loaded_lines(items, root);
}

} // verus!
