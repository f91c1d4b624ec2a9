//! The flattener: walks a [`ConfigValue`] tree depth-first and produces a
//! [`FlatMap`] from dot-separated paths to the text of the leaf at that
//! path. Sequence elements contribute their zero-based index as a path
//! segment; mapping entries contribute their key.

use vstd::prelude::*;

use crate::chars::str_eq;
use crate::value::{
    bool_text,
    dec_digits,
    int_to_text,
    leaf_count,
    leaf_count_all,
    leaf_count_pairs,
    leaf_text,
    usize_to_text,
    ConfigValue,
};

verus! {

/// The path of a child reached from `prefix` through the segment `key`:
/// the segment itself at the root, and `prefix` + `.` + segment elsewhere.
pub open spec fn child_path(prefix: Seq<char>, key: Seq<char>) -> Seq<char> {
    if prefix.len() == 0 {
        key
    } else {
        prefix + seq!['.'] + key
    }
}

/// The `(path, text)` pairs of every leaf under `v`, in depth-first
/// document order, when `v` itself sits at path `prefix`.
pub open spec fn flat_entries(v: ConfigValue, prefix: Seq<char>) -> Seq<(Seq<char>, Seq<char>)>
    decreases v,
{
    match v {
        ConfigValue::Sequence(items) => flat_entries_items(items@, prefix, 0),
        ConfigValue::Mapping(pairs) => flat_entries_pairs(pairs@, prefix),
        _ => seq![(prefix, leaf_text(v))],
    }
}

/// The leaf entries of the sequence elements `items`, the first of which
/// sits at index `idx` under `prefix`.
pub open spec fn flat_entries_items(items: Seq<ConfigValue>, prefix: Seq<char>, idx: nat) -> Seq<
    (Seq<char>, Seq<char>),
>
    decreases items,
{
    if items.len() == 0 {
        Seq::empty()
    } else {
        flat_entries(items[0], child_path(prefix, dec_digits(idx))) + flat_entries_items(
            items.drop_first(),
            prefix,
            idx + 1,
        )
    }
}

/// The leaf entries of the mapping entries `pairs` under `prefix`.
pub open spec fn flat_entries_pairs(pairs: Seq<(String, ConfigValue)>, prefix: Seq<char>) -> Seq<
    (Seq<char>, Seq<char>),
>
    decreases pairs,
{
    if pairs.len() == 0 {
        Seq::empty()
    } else {
        flat_entries(pairs[0].1, child_path(prefix, pairs[0].0@)) + flat_entries_pairs(
            pairs.drop_first(),
            prefix,
        )
    }
}

/// Whether no two entries share a path.
pub open spec fn paths_distinct(entries: Seq<(Seq<char>, Seq<char>)>) -> bool {
    forall|i: int, j: int| 0 <= i < j < entries.len() ==> entries[i].0 != entries[j].0
}

/// The position of the entry keyed `k`, or `-1` when no entry has that
/// path.
pub open spec fn key_index(entries: Seq<(Seq<char>, Seq<char>)>, k: Seq<char>) -> int
    decreases entries.len(),
{
    if entries.len() == 0 {
        -1
    } else if entries[0].0 == k {
        0
    } else if key_index(entries.drop_first(), k) < 0 {
        -1
    } else {
        1 + key_index(entries.drop_first(), k)
    }
}

/// What `key_index` returns: the first position holding `k`, and `-1`
/// exactly when `k` is absent.
pub proof fn lemma_key_index(entries: Seq<(Seq<char>, Seq<char>)>, k: Seq<char>)
    ensures
        key_index(entries, k) >= 0 ==> {
            &&& key_index(entries, k) < entries.len()
            &&& entries[key_index(entries, k)].0 == k
            &&& forall|j: int| 0 <= j < key_index(entries, k) ==> entries[j].0 != k
        },
        key_index(entries, k) < 0 ==> forall|j: int| 0 <= j < entries.len() ==> entries[j].0 != k,
    decreases entries.len(),
{
    if entries.len() > 0 && entries[0].0 != k {
        lemma_key_index(entries.drop_first(), k);
        assert(forall|j: int|
            1 <= j < entries.len() ==> entries[j] == entries.drop_first()[j - 1]);
    }
}

/// `entries` with the entry `(k, val)` written over the entry keyed `k`,
/// or appended when no entry has that path.
pub open spec fn upsert(
    entries: Seq<(Seq<char>, Seq<char>)>,
    k: Seq<char>,
    val: Seq<char>,
) -> Seq<(Seq<char>, Seq<char>)> {
    let i = key_index(entries, k);
    if i < 0 {
        entries.push((k, val))
    } else {
        entries.update(i, (k, val))
    }
}

/// `acc` after every entry of `s` is upserted into it, in order.
pub open spec fn upsert_all(
    acc: Seq<(Seq<char>, Seq<char>)>,
    s: Seq<(Seq<char>, Seq<char>)>,
) -> Seq<(Seq<char>, Seq<char>)>
    decreases s.len(),
{
    if s.len() == 0 {
        acc
    } else {
        let rest = upsert_all(acc, s.drop_last());
        upsert(rest, s.last().0, s.last().1)
    }
}

/// The entries of `s` upserted into an empty map: the shape a freshly
/// flattened document takes, later entries overriding earlier ones with
/// the same path.
pub open spec fn dedup_entries(s: Seq<(Seq<char>, Seq<char>)>) -> Seq<(Seq<char>, Seq<char>)> {
    upsert_all(Seq::empty(), s)
}

/// Upserting distributes over concatenation of the inserted entries.
pub proof fn lemma_upsert_all_append(
    acc: Seq<(Seq<char>, Seq<char>)>,
    a: Seq<(Seq<char>, Seq<char>)>,
    b: Seq<(Seq<char>, Seq<char>)>,
)
    ensures
        upsert_all(acc, a + b) == upsert_all(upsert_all(acc, a), b),
    decreases b.len(),
{
    if b.len() == 0 {
        assert(a + b =~= a);
    } else {
        lemma_upsert_all_append(acc, a, b.drop_last());
        assert((a + b).drop_last() =~= a + b.drop_last());
        assert((a + b).last() == b.last());
    }
}

/// An upsert keeps every path that was present and adds the new one.
pub proof fn lemma_upsert_distinct(
    entries: Seq<(Seq<char>, Seq<char>)>,
    k: Seq<char>,
    val: Seq<char>,
)
    requires
        paths_distinct(entries),
    ensures
        paths_distinct(upsert(entries, k, val)),
        upsert(entries, k, val).len() == if key_index(entries, k) < 0 {
            entries.len() + 1
        } else {
            entries.len() as nat + 0
        },
        forall|q: Seq<char>|
            key_index(upsert(entries, k, val), q) >= 0 <==> (key_index(entries, q) >= 0 || q
                == k),
{
    lemma_key_index(entries, k);
    let r = upsert(entries, k, val);
    if key_index(entries, k) < 0 {
        assert forall|q: Seq<char>|
            key_index(r, q) >= 0 <==> (key_index(entries, q) >= 0 || q == k) by {
            lemma_key_index(r, q);
            lemma_key_index(entries, q);
            if key_index(entries, q) >= 0 || q == k {
                if key_index(r, q) < 0 {
                    if q == k {
                        assert(r[entries.len() as int].0 == k);
                    } else {
                        let i = key_index(entries, q);
                        assert(r[i].0 == q);
                    }
                }
            } else {
                if key_index(r, q) >= 0 {
                    let i = key_index(r, q);
                    if i < entries.len() {
                        assert(entries[i].0 == q);
                    }
                }
            }
        }
    } else {
        let i = key_index(entries, k);
        assert(r =~= entries.update(i, (k, val)));
        assert forall|q: Seq<char>|
            key_index(r, q) >= 0 <==> (key_index(entries, q) >= 0 || q == k) by {
            lemma_key_index(r, q);
            lemma_key_index(entries, q);
            if key_index(entries, q) >= 0 || q == k {
                if key_index(r, q) < 0 {
                    if q == k {
                        assert(r[i].0 == k);
                    } else {
                        let j = key_index(entries, q);
                        assert(j != i);
                        assert(r[j].0 == q);
                    }
                }
            } else {
                if key_index(r, q) >= 0 {
                    let j = key_index(r, q);
                    if j == i {
                        assert(r[j].0 == k);
                    } else {
                        assert(entries[j].0 == q);
                    }
                }
            }
        }
    }
}

/// When the inserted paths are distinct, deduplication changes nothing.
pub proof fn lemma_dedup_distinct(s: Seq<(Seq<char>, Seq<char>)>)
    requires
        paths_distinct(s),
    ensures
        dedup_entries(s) == s,
    decreases s.len(),
{
    if s.len() == 0 {
        assert(dedup_entries(s) =~= s);
    } else {
        assert(paths_distinct(s.drop_last()));
        lemma_dedup_distinct(s.drop_last());
        let rest = s.drop_last();
        lemma_key_index(rest, s.last().0);
        if key_index(rest, s.last().0) >= 0 {
            let i = key_index(rest, s.last().0);
            assert(s[i].0 == s.last().0);
            assert(s[i].0 == s[s.len() - 1].0);
            assert(false);
        }
        assert(dedup_entries(s) =~= s);
    }
}

/// Deduplicated entries always have distinct paths.
pub proof fn lemma_dedup_paths_distinct(s: Seq<(Seq<char>, Seq<char>)>)
    ensures
        paths_distinct(dedup_entries(s)),
    decreases s.len(),
{
    if s.len() > 0 {
        lemma_dedup_paths_distinct(s.drop_last());
        lemma_upsert_distinct(upsert_all(Seq::empty(), s.drop_last()), s.last().0, s.last().1);
    }
}

/// A flat mapping from dot-separated paths to leaf text. Paths are unique;
/// no order is guaranteed until the line generator sorts them.
#[derive(Debug)]
pub struct FlatMap {
    entries: Vec<(String, String)>,
}

/// The view of a vector of owned string pairs: the same pairs as
/// character sequences.
pub open spec fn pairs_view(s: Seq<(String, String)>) -> Seq<(Seq<char>, Seq<char>)> {
    s.map_values(|p: (String, String)| (p.0@, p.1@))
}

impl FlatMap {
    /// The entries as character sequences, in insertion order.
    pub closed spec fn entries_view(&self) -> Seq<(Seq<char>, Seq<char>)> {
        pairs_view(self.entries@)
    }

    /// Well-formedness: no two entries share a path.
    pub open spec fn wf(&self) -> bool {
        paths_distinct(self.entries_view())
    }

    /// An empty map.
    pub fn new() -> (r: Self)
        ensures
            r.wf(),
            r.entries_view() == Seq::<(Seq<char>, Seq<char>)>::empty(),
    {
        let r = FlatMap { entries: Vec::new() };
        proof {
            assert(r.entries_view() =~= Seq::<(Seq<char>, Seq<char>)>::empty());
        }
        r
    }

    /// How many paths the map holds.
    pub fn len(&self) -> (r: usize)
        ensures
            r == self.entries_view().len(),
    {
        self.entries.len()
    }

    /// The text stored at `key`, if any.
    pub fn get(&self, key: &str) -> (r: Option<&String>)
        ensures
            match r {
                Some(v) => {
                    &&& key_index(self.entries_view(), key@) >= 0
                    &&& v@ == self.entries_view()[key_index(self.entries_view(), key@)].1
                },
                None => key_index(self.entries_view(), key@) < 0,
            },
    {
        let n = self.entries.len();
        let mut j: usize = 0;
        while j < n
            invariant
                j <= n,
                n == self.entries@.len(),
                forall|i: int| 0 <= i < j ==> self.entries_view()[i].0 != key@,
            decreases n - j,
        {
            if str_eq(self.entries[j].0.as_str(), key) {
                proof {
                    lemma_key_index_first(self.entries_view(), key@, j as int);
                }
                return Some(&self.entries[j].1);
            }
            j = j + 1;
        }
        proof {
            lemma_key_index(self.entries_view(), key@);
            if key_index(self.entries_view(), key@) >= 0 {
                assert(self.entries_view()[key_index(self.entries_view(), key@)].0 == key@);
            }
        }
        None
    }

    /// Stores `value` at `key`, replacing the entry with that path if one
    /// is present.
    pub fn insert(&mut self, key: String, value: String)
        requires
            old(self).wf(),
        ensures
            final(self).wf(),
            final(self).entries_view() == upsert(old(self).entries_view(), key@, value@),
    {
        let ghost old_view = self.entries_view();
        let n = self.entries.len();
        let mut j: usize = 0;
        while j < n
            invariant
                j <= n,
                n == self.entries@.len(),
                self.entries_view() == old_view,
                old(self).wf(),
                old_view == old(self).entries_view(),
                forall|i: int| 0 <= i < j ==> self.entries_view()[i].0 != key@,
            decreases n - j,
        {
            if str_eq(self.entries[j].0.as_str(), key.as_str()) {
                proof {
                    lemma_key_index_first(old_view, key@, j as int);
                }
                self.entries.remove(j);
                self.entries.insert(j, (key, value));
                proof {
                    assert(self.entries_view() =~= old_view.update(j as int, (key@, value@)));
                    lemma_upsert_distinct(old_view, key@, value@);
                }
                return;
            }
            j = j + 1;
        }
        proof {
            lemma_key_index(old_view, key@);
            if key_index(old_view, key@) >= 0 {
                assert(old_view[key_index(old_view, key@)].0 == key@);
            }
        }
        self.entries.push((key, value));
        proof {
            assert(self.entries_view() =~= old_view.push((key@, value@)));
            lemma_upsert_distinct(old_view, key@, value@);
        }
    }

    /// A copy of the entries, for the line generator to sort.
    pub fn entries_clone(&self) -> (r: Vec<(String, String)>)
        ensures
            pairs_view(r@) == self.entries_view(),
    {
        let mut r: Vec<(String, String)> = Vec::new();
        let n = self.entries.len();
        let mut j: usize = 0;
        while j < n
            invariant
                j <= n,
                n == self.entries@.len(),
                r@.len() == j,
                forall|i: int|
                    0 <= i < j ==> pairs_view(r@)[i] == self.entries_view()[i],
            decreases n - j,
        {
            let k = self.entries[j].0.clone();
            let v = self.entries[j].1.clone();
            r.push((k, v));
            j = j + 1;
        }
        proof {
            assert(pairs_view(r@) =~= self.entries_view());
        }
        r
    }
}

/// A tree contributes exactly one entry per leaf.
pub proof fn lemma_flat_entries_len(v: ConfigValue, prefix: Seq<char>)
    ensures
        flat_entries(v, prefix).len() == leaf_count(v),
    decreases v,
{
    match v {
        ConfigValue::Sequence(items) => lemma_flat_entries_items_len(items@, prefix, 0),
        ConfigValue::Mapping(pairs) => lemma_flat_entries_pairs_len(pairs@, prefix),
        _ => {},
    }
}

/// Sequence elements contribute exactly one entry per leaf.
pub proof fn lemma_flat_entries_items_len(items: Seq<ConfigValue>, prefix: Seq<char>, idx: nat)
    ensures
        flat_entries_items(items, prefix, idx).len() == leaf_count_all(items),
    decreases items,
{
    if items.len() > 0 {
        lemma_flat_entries_len(items[0], child_path(prefix, dec_digits(idx)));
        lemma_flat_entries_items_len(items.drop_first(), prefix, idx + 1);
    }
}

/// Mapping entries contribute exactly one entry per leaf.
pub proof fn lemma_flat_entries_pairs_len(pairs: Seq<(String, ConfigValue)>, prefix: Seq<char>)
    ensures
        flat_entries_pairs(pairs, prefix).len() == leaf_count_pairs(pairs),
    decreases pairs,
{
    if pairs.len() > 0 {
        lemma_flat_entries_len(pairs[0].1, child_path(prefix, pairs[0].0@));
        lemma_flat_entries_pairs_len(pairs.drop_first(), prefix);
    }
}

/// When every leaf of `v` has a distinct path, the flattened map holds
/// exactly one entry per leaf: its key count equals the leaf count.
pub proof fn lemma_flatten_key_count(v: ConfigValue)
    requires
        paths_distinct(flat_entries(v, Seq::empty())),
    ensures
        dedup_entries(flat_entries(v, Seq::empty())).len() == leaf_count(v),
{
    lemma_dedup_distinct(flat_entries(v, Seq::empty()));
    lemma_flat_entries_len(v, Seq::empty());
}

/// Extending the element list by one value appends that value's entries.
proof fn lemma_flat_entries_items_push(items: Seq<ConfigValue>, x: ConfigValue, prefix: Seq<char>, idx: nat)
    ensures
        flat_entries_items(items.push(x), prefix, idx) == flat_entries_items(items, prefix, idx)
            + flat_entries(x, child_path(prefix, dec_digits(idx + items.len()))),
    decreases items,
{
    if items.len() == 0 {
        assert(items.push(x)[0] == x);
        assert(items.push(x).drop_first() =~= Seq::<ConfigValue>::empty());
        assert(flat_entries_items(Seq::<ConfigValue>::empty(), prefix, idx + 1) =~= Seq::<
            (Seq<char>, Seq<char>),
        >::empty());
        assert(flat_entries_items(items.push(x), prefix, idx) =~= flat_entries_items(
            items,
            prefix,
            idx,
        ) + flat_entries(x, child_path(prefix, dec_digits(idx))));
    } else {
        assert(items.push(x)[0] == items[0]);
        assert(items.push(x).drop_first() =~= items.drop_first().push(x));
        lemma_flat_entries_items_push(items.drop_first(), x, prefix, idx + 1);
        assert(flat_entries_items(items.push(x), prefix, idx) =~= flat_entries_items(
            items,
            prefix,
            idx,
        ) + flat_entries(x, child_path(prefix, dec_digits(idx + items.len()))));
    }
}

/// Extending the pair list by one entry appends that entry's entries.
proof fn lemma_flat_entries_pairs_push(
    pairs: Seq<(String, ConfigValue)>,
    p: (String, ConfigValue),
    prefix: Seq<char>,
)
    ensures
        flat_entries_pairs(pairs.push(p), prefix) == flat_entries_pairs(pairs, prefix)
            + flat_entries(p.1, child_path(prefix, p.0@)),
    decreases pairs,
{
    if pairs.len() == 0 {
        assert(pairs.push(p)[0] == p);
        assert(pairs.push(p).drop_first() =~= Seq::<(String, ConfigValue)>::empty());
        assert(flat_entries_pairs(Seq::<(String, ConfigValue)>::empty(), prefix) =~= Seq::<
            (Seq<char>, Seq<char>),
        >::empty());
        assert(flat_entries_pairs(pairs.push(p), prefix) =~= flat_entries_pairs(pairs, prefix)
            + flat_entries(p.1, child_path(prefix, p.0@)));
    } else {
        assert(pairs.push(p)[0] == pairs[0]);
        assert(pairs.push(p).drop_first() =~= pairs.drop_first().push(p));
        lemma_flat_entries_pairs_push(pairs.drop_first(), p, prefix);
        assert(flat_entries_pairs(pairs.push(p), prefix) =~= flat_entries_pairs(pairs, prefix)
            + flat_entries(p.1, child_path(prefix, p.0@)));
    }
}

/// The text a leaf renders to; containers render as the empty string but
/// are never inserted as such by the flattener.
fn leaf_to_text(v: &ConfigValue) -> (r: String)
    ensures
        r@ == leaf_text(*v),
{
    match v {
        ConfigValue::Null => String::new(),
        ConfigValue::Bool(b) => {
            if *b {
                let s = String::from_str("true");
                proof {
                    reveal_strlit("true");
                    assert(s@ =~= bool_text(true));
                }
                s
            } else {
                let s = String::from_str("false");
                proof {
                    reveal_strlit("false");
                    assert(s@ =~= bool_text(false));
                }
                s
            }
        },
        ConfigValue::Int(n) => int_to_text(*n),
        ConfigValue::Number(s) => s.clone(),
        ConfigValue::Text(s) => s.clone(),
        ConfigValue::Sequence(_) => String::new(),
        ConfigValue::Mapping(_) => String::new(),
    }
}

/// The path of a child reached from `prefix` through `segment`.
fn join_path(prefix: &str, segment: &str) -> (r: String)
    ensures
        r@ == child_path(prefix@, segment@),
{
    if prefix.is_empty() {
        segment.to_owned()
    } else {
        let mut r = prefix.to_owned();
        r.append(".");
        r.append(segment);
        proof {
            reveal_strlit(".");
            assert(r@ =~= child_path(prefix@, segment@));
        }
        r
    }
}

/// Walks `value` at path `prefix` and upserts one entry per leaf into
/// `result`, in depth-first document order.
pub fn flatten_value(prefix: &str, value: &ConfigValue, result: &mut FlatMap)
    requires
        old(result).wf(),
    ensures
        final(result).wf(),
        final(result).entries_view() == upsert_all(
            old(result).entries_view(),
            flat_entries(*value, prefix@),
        ),
    decreases value,
{
    match value {
        ConfigValue::Sequence(items) => {
            let ghost old_view = result.entries_view();
            let n = items.len();
            let mut i: usize = 0;
            assert(items@.take(0) =~= Seq::<ConfigValue>::empty());
            while i < n
                invariant
                    i <= n,
                    n == items@.len(),
                    *value == ConfigValue::Sequence(*items),
                    result.wf(),
                    result.entries_view() == upsert_all(
                        old_view,
                        flat_entries_items(items@.take(i as int), prefix@, 0),
                    ),
                decreases n - i,
            {
                let idx_text = usize_to_text(i);
                let child = join_path(prefix, idx_text.as_str());
                proof {
                    assert(decreases_to!(*value => value->Sequence_0));
                    assert(decreases_to!(value->Sequence_0 => value->Sequence_0@));
                    assert(decreases_to!(value->Sequence_0@ => value->Sequence_0@[i as int]));
                    assert(decreases_to!(*value => items@[i as int]));
                }
                flatten_value(child.as_str(), &items[i], result);
                proof {
                    let taken = items@.take(i as int);
                    assert(items@.take(i + 1) =~= taken.push(items@[i as int]));
                    lemma_flat_entries_items_push(taken, items@[i as int], prefix@, 0);
                    lemma_upsert_all_append(
                        old_view,
                        flat_entries_items(taken, prefix@, 0),
                        flat_entries(items@[i as int], child_path(prefix@, dec_digits(i as nat))),
                    );
                }
                i = i + 1;
            }
            proof {
                assert(items@.take(n as int) =~= items@);
            }
        },
        ConfigValue::Mapping(pairs) => {
            let ghost old_view = result.entries_view();
            let n = pairs.len();
            let mut i: usize = 0;
            assert(pairs@.take(0) =~= Seq::<(String, ConfigValue)>::empty());
            while i < n
                invariant
                    i <= n,
                    n == pairs@.len(),
                    *value == ConfigValue::Mapping(*pairs),
                    result.wf(),
                    result.entries_view() == upsert_all(
                        old_view,
                        flat_entries_pairs(pairs@.take(i as int), prefix@),
                    ),
                decreases n - i,
            {
                let child = join_path(prefix, pairs[i].0.as_str());
                proof {
                    assert(decreases_to!(*value => value->Mapping_0));
                    assert(decreases_to!(value->Mapping_0 => value->Mapping_0@));
                    assert(decreases_to!(value->Mapping_0@ => value->Mapping_0@[i as int]));
                    assert(decreases_to!(value->Mapping_0@[i as int] => value->Mapping_0@[i as int].1));
                    assert(decreases_to!(*value => pairs@[i as int].1));
                }
                flatten_value(child.as_str(), &pairs[i].1, result);
                proof {
                    let taken = pairs@.take(i as int);
                    assert(pairs@.take(i + 1) =~= taken.push(pairs@[i as int]));
                    lemma_flat_entries_pairs_push(taken, pairs@[i as int], prefix@);
                    lemma_upsert_all_append(
                        old_view,
                        flat_entries_pairs(taken, prefix@),
                        flat_entries(
                            pairs@[i as int].1,
                            child_path(prefix@, pairs@[i as int].0@),
                        ),
                    );
                }
                i = i + 1;
            }
            proof {
                assert(pairs@.take(n as int) =~= pairs@);
            }
        },
        _ => {
            let text = leaf_to_text(value);
            let ghost old_view = result.entries_view();
            result.insert(prefix.to_owned(), text);
            proof {
                let single = flat_entries(*value, prefix@);
                assert(single =~= seq![(prefix@, leaf_text(*value))]);
                assert(single.drop_last() =~= Seq::<(Seq<char>, Seq<char>)>::empty());
                assert(upsert_all(old_view, Seq::<(Seq<char>, Seq<char>)>::empty())
                    == old_view);
                assert(upsert_all(old_view, single) == upsert(
                    old_view,
                    prefix@,
                    leaf_text(*value),
                ));
            }
        },
    }
}

/// Flattens a whole document: every leaf of `value` appears under its
/// dot-separated path, later duplicates of a path (possible only when the
/// source repeats a path) overriding earlier ones.
pub fn flatten(value: &ConfigValue) -> (r: FlatMap)
    ensures
        r.wf(),
        r.entries_view() == dedup_entries(flat_entries(*value, Seq::empty())),
{
    let mut result = FlatMap::new();
    let empty = String::new();
    flatten_value(empty.as_str(), value, &mut result);
    result
}

/// The first position holding `k` is what `key_index` returns.
pub proof fn lemma_key_index_first(entries: Seq<(Seq<char>, Seq<char>)>, k: Seq<char>, j: int)
    requires
        0 <= j < entries.len(),
        entries[j].0 == k,
        forall|i: int| 0 <= i < j ==> entries[i].0 != k,
    ensures
        key_index(entries, k) == j,
    decreases j,
{
    if j > 0 {
        assert(forall|i: int|
            0 <= i < entries.drop_first().len() ==> entries.drop_first()[i] == entries[i + 1]);
        lemma_key_index_first(entries.drop_first(), k, j - 1);
    }
}

} // verus!
