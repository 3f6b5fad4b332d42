//! The configuration tree: a nested mapping from string keys to typed values,
//! with insertion along dotted key paths.

use vstd::prelude::*;

use crate::text::str_views;

verus! {

/// Mathematical model of a configuration value: a leaf (boolean, numeric
/// literal text, or plain string) or a nested tree, the tree being a sequence
/// of key/value pairs in insertion order.
#[verifier::ext_equal]
pub enum ValueModel {
    Bool(bool),
    Num(Seq<char>),
    Str(Seq<char>),
    Tree(Seq<(Seq<char>, ValueModel)>),
}

/// A typed configuration value. A number is kept as its literal text, exactly
/// as it stood in the input; rendering it numerically is the caller's concern.
#[derive(Debug, PartialEq)]
pub enum ConfigValue {
    Bool(bool),
    Num(String),
    Str(String),
    Tree(ConfigTree),
}

/// A configuration tree: an ordered mapping with unique string keys, whose
/// values are leaves or nested trees.
#[derive(Debug, PartialEq)]
pub struct ConfigTree {
    entries: Vec<(String, ConfigValue)>,
}

/// The model of a single value.
pub open spec fn value_model(v: ConfigValue) -> ValueModel
    decreases v,
{
    match v {
        ConfigValue::Bool(b) => ValueModel::Bool(b),
        ConfigValue::Num(s) => ValueModel::Num(s@),
        ConfigValue::Str(s) => ValueModel::Str(s@),
        ConfigValue::Tree(t) => ValueModel::Tree(tree_model(t)),
    }
}

/// The model of a whole tree: its entries, keys and values taken to their
/// models, in order.
pub closed spec fn tree_model(t: ConfigTree) -> Seq<(Seq<char>, ValueModel)>
    decreases t,
    via tree_model_dec
{
    Seq::new(
        t.entries@.len(),
        |i: int|
            if 0 <= i < t.entries@.len() {
                (t.entries@[i].0@, value_model(t.entries@[i].1))
            } else {
                (Seq::empty(), ValueModel::Bool(false))
            },
    )
}

#[via_fn]
proof fn tree_model_dec(t: ConfigTree) {
    assert forall|i: int| 0 <= i < t.entries@.len() implies (decreases_to!(t =>
    t.entries@[i].1)) by {
        assert(decreases_to!(t => t.entries));
        assert(decreases_to!(t.entries => t.entries@));
        assert(decreases_to!(t.entries@ => t.entries@[i]));
    }
}

impl View for ConfigValue {
    type V = ValueModel;

    open spec fn view(&self) -> ValueModel {
        value_model(*self)
    }
}

impl View for ConfigTree {
    type V = Seq<(Seq<char>, ValueModel)>;

    open spec fn view(&self) -> Seq<(Seq<char>, ValueModel)> {
        tree_model(*self)
    }
}

/// The model of a vector of entries, for reasoning about trees under
/// construction.
spec fn entries_model(es: Seq<(String, ConfigValue)>) -> Seq<(Seq<char>, ValueModel)> {
    Seq::new(es.len(), |i: int| (es[i].0@, value_model(es[i].1)))
}

proof fn lemma_tree_model_is_entries_model(t: ConfigTree)
    ensures
        tree_model(t) == entries_model(t.entries@),
{
    assert(tree_model(t) =~= entries_model(t.entries@));
}

/// First-match lookup of `key` among the entries of one tree level.
pub open spec fn lookup_model(
    es: Seq<(Seq<char>, ValueModel)>,
    key: Seq<char>,
) -> Option<ValueModel>
    decreases es.len(),
{
    if es.len() == 0 {
        None
    } else if es[0].0 == key {
        Some(es[0].1)
    } else {
        lookup_model(es.drop_first(), key)
    }
}

/// Replaces the value of the first entry whose key is `key`, or appends a new
/// entry at the end if the key is absent.
pub open spec fn set_entry_model(
    es: Seq<(Seq<char>, ValueModel)>,
    key: Seq<char>,
    v: ValueModel,
) -> Seq<(Seq<char>, ValueModel)>
    decreases es.len(),
{
    if es.len() == 0 {
        seq![(key, v)]
    } else if es[0].0 == key {
        seq![(key, v)] + es.drop_first()
    } else {
        seq![es[0]] + set_entry_model(es.drop_first(), key, v)
    }
}

/// Insertion of a value at a dotted key path. The final segment overwrites
/// whatever stood at that key; earlier segments descend into existing subtrees
/// or create empty ones. `None` is the structural conflict: some earlier
/// segment already names a leaf, which cannot be descended into.
pub open spec fn insert_model(
    es: Seq<(Seq<char>, ValueModel)>,
    keys: Seq<Seq<char>>,
    v: ValueModel,
) -> Option<Seq<(Seq<char>, ValueModel)>>
    recommends
        keys.len() >= 1,
    decreases keys.len(),
{
    if keys.len() <= 1 {
        Some(set_entry_model(es, keys[0], v))
    } else {
        let sub = match lookup_model(es, keys[0]) {
            None => Some(Seq::<(Seq<char>, ValueModel)>::empty()),
            Some(ValueModel::Tree(s)) => Some(s),
            Some(_) => None,
        };
        match sub {
            None => None,
            Some(s) => match insert_model(s, keys.drop_first(), v) {
                None => None,
                Some(s2) => Some(set_entry_model(es, keys[0], ValueModel::Tree(s2))),
            },
        }
    }
}

/// Lookup along a whole key path, descending through nested trees.
pub open spec fn path_lookup(
    es: Seq<(Seq<char>, ValueModel)>,
    keys: Seq<Seq<char>>,
) -> Option<ValueModel>
    recommends
        keys.len() >= 1,
    decreases keys.len(),
{
    if keys.len() <= 1 {
        lookup_model(es, keys[0])
    } else {
        match lookup_model(es, keys[0]) {
            Some(ValueModel::Tree(s)) => path_lookup(s, keys.drop_first()),
            _ => None,
        }
    }
}

/// Where the first match of `key` sits at index `idx`, lookup returns that
/// entry's value and replacement updates that index in place.
proof fn lemma_first_match(
    es: Seq<(Seq<char>, ValueModel)>,
    key: Seq<char>,
    idx: int,
    v: ValueModel,
)
    requires
        0 <= idx < es.len(),
        es[idx].0 == key,
        forall|j: int| 0 <= j < idx ==> es[j].0 != key,
    ensures
        lookup_model(es, key) == Some(es[idx].1),
        set_entry_model(es, key, v) =~= es.update(idx, (key, v)),
    decreases idx,
{
    if idx == 0 {
        assert(set_entry_model(es, key, v) =~= es.update(0, (key, v)));
    } else {
        lemma_first_match(es.drop_first(), key, idx - 1, v);
        assert(es.drop_first().update(idx - 1, (key, v)) =~= es.update(idx, (key, v)).drop_first());
        assert(set_entry_model(es, key, v) =~= es.update(idx, (key, v)));
    }
}

/// Where no entry has key `key`, lookup fails and replacement appends.
proof fn lemma_no_match(es: Seq<(Seq<char>, ValueModel)>, key: Seq<char>, v: ValueModel)
    requires
        forall|j: int| 0 <= j < es.len() ==> es[j].0 != key,
    ensures
        lookup_model(es, key) is None,
        set_entry_model(es, key, v) =~= es.push((key, v)),
    decreases es.len(),
{
    if es.len() > 0 {
        lemma_no_match(es.drop_first(), key, v);
        assert(set_entry_model(es, key, v) =~= es.push((key, v)));
    }
}

/// Insertion into an empty level never meets a structural conflict.
proof fn lemma_insert_empty_ok(keys: Seq<Seq<char>>, v: ValueModel)
    requires
        keys.len() >= 1,
    ensures
        insert_model(Seq::empty(), keys, v) is Some,
    decreases keys.len(),
{
    if keys.len() > 1 {
        lemma_insert_empty_ok(keys.drop_first(), v);
    }
}

impl ConfigTree {
    /// Creates an empty tree.
    pub fn new() -> (t: ConfigTree)
        ensures
            t@ == Seq::<(Seq<char>, ValueModel)>::empty(),
    {
        let t = ConfigTree { entries: Vec::new() };
        proof {
            assert(t@ =~= Seq::<(Seq<char>, ValueModel)>::empty());
        }
        t
    }
}

/// Returned for a structural conflict: a key path that runs through an
/// existing leaf value, which cannot be descended into.
#[derive(Debug, PartialEq, Eq)]
pub struct PathConflict;

#[verifier::loop_isolation(false)]
fn insert_entries(
    entries: &mut Vec<(String, ConfigValue)>,
    keys: &[String],
    i: usize,
    value: ConfigValue,
) -> (r: Result<(), PathConflict>)
    requires
        i < keys@.len(),
    ensures
        match r {
            Ok(_) => insert_model(
                entries_model(old(entries)@),
                str_views(keys@).skip(i as int),
                value_model(value),
            ) == Some(entries_model(final (entries)@)),
            Err(_) => insert_model(
                entries_model(old(entries)@),
                str_views(keys@).skip(i as int),
                value_model(value),
            ) is None && entries_model(final (entries)@) == entries_model(old(entries)@),
        },
    decreases keys@.len() - i,
{
    let ghost gkeys = str_views(keys@).skip(i as int);
    let ghost key: Seq<char> = keys@[i as int]@;
    let ghost em_old = entries_model(entries@);
    proof {
        assert(gkeys[0] == key);
        assert(gkeys.len() == keys@.len() - i);
    }
    let klen = keys.len();
    let n = entries.len();
    let mut idx: usize = 0;
    while idx < n
        invariant
            i < keys@.len(),
            idx <= n,
            n == entries@.len(),
            entries@ == old(entries)@,
            em_old == entries_model(entries@),
            key == keys@[i as int]@,
            forall|j: int| 0 <= j < idx ==> entries@[j].0@ != key,
        decreases n - idx,
    {
        if entries[idx].0 == keys[i] {
            proof {
                assert(em_old[idx as int].0 == key);
                assert(forall|j: int| 0 <= j < idx ==> em_old[j].0 != key);
            }
            if i + 1 == klen {
                let k = keys[i].clone();
                let _replaced = entries.remove(idx);
                entries.insert(idx, (k, value));
                proof {
                    lemma_first_match(em_old, key, idx as int, value_model(value));
                    assert(entries@ =~= old(entries)@.update(idx as int, (k, value)));
                    assert(entries_model(entries@) =~= em_old.update(
                        idx as int,
                        (key, value_model(value)),
                    ));
                }
                return Ok(());
            } else {
                let (k, old_val) = entries.remove(idx);
                proof {
                    lemma_first_match(em_old, key, idx as int, value_model(value));
                    assert(lookup_model(em_old, key) == Some(em_old[idx as int].1));
                    assert(em_old[idx as int].1 == value_model(old(entries)@[idx as int].1));
                }
                match old_val {
                    ConfigValue::Tree(mut sub) => {
                        proof {
                            lemma_tree_model_is_entries_model(sub);
                            assert(em_old[idx as int].1 == ValueModel::Tree(
                                entries_model(sub.entries@),
                            ));
                            assert(gkeys.drop_first() =~= str_views(keys@).skip(i as int + 1));
                        }
                        let r = insert_entries(&mut sub.entries, keys, i + 1, value);
                        let ghost sub_em = entries_model(sub.entries@);
                        entries.insert(idx, (k, ConfigValue::Tree(sub)));
                        proof {
                            lemma_tree_model_is_entries_model(sub);
                            assert(entries@ =~= old(entries)@.update(
                                idx as int,
                                (k, ConfigValue::Tree(sub)),
                            ));
                        }
                        match r {
                            Ok(_) => {
                                proof {
                                    lemma_first_match(em_old, key, idx as int, ValueModel::Tree(sub_em));
                                    assert(entries_model(entries@) =~= em_old.update(
                                        idx as int,
                                        (key, ValueModel::Tree(sub_em)),
                                    ));
                                }
                                return Ok(());
                            },
                            Err(e) => {
                                proof {
                                    assert(entries_model(entries@) =~= em_old);
                                }
                                return Err(e);
                            },
                        }
                    },
                    other => {
                        proof {
                            assert(!(em_old[idx as int].1 is Tree));
                        }
                        entries.insert(idx, (k, other));
                        proof {
                            assert(entries@ =~= old(entries)@);
                        }
                        return Err(PathConflict);
                    },
                }
            }
        } else {
            idx += 1;
        }
    }
    proof {
        assert(forall|j: int| 0 <= j < em_old.len() ==> em_old[j].0 != key);
        lemma_no_match(em_old, key, value_model(value));
    }
    if i + 1 == klen {
        let k = keys[i].clone();
        entries.push((k, value));
        proof {
            assert(entries_model(entries@) =~= em_old.push((key, value_model(value))));
        }
        Ok(())
    } else {
        let mut sub = ConfigTree { entries: Vec::new() };
        proof {
            assert(entries_model(sub.entries@) =~= Seq::<(Seq<char>, ValueModel)>::empty());
            assert(gkeys.drop_first() =~= str_views(keys@).skip(i as int + 1));
        }
        let r = insert_entries(&mut sub.entries, keys, i + 1, value);
        let ghost sub_em = entries_model(sub.entries@);
        match r {
            Ok(_) => {
                let k = keys[i].clone();
                proof {
                    lemma_tree_model_is_entries_model(sub);
                    lemma_no_match(em_old, key, ValueModel::Tree(sub_em));
                }
                entries.push((k, ConfigValue::Tree(sub)));
                proof {
                    assert(entries_model(entries@) =~= em_old.push((key, ValueModel::Tree(sub_em))));
                }
                Ok(())
            },
            Err(e) => {
                proof {
                    lemma_insert_empty_ok(gkeys.drop_first(), value_model(value));
                    assert(false);
                }
                Err(e)
            },
        }
    }
}

/// Inserts `value` at the dotted key path `keys` (one string per path
/// segment), creating intermediate subtrees as needed; the final segment
/// overwrites whatever stood at that key. Fails, leaving the tree unchanged,
/// exactly when an earlier segment already names a leaf value.
pub fn insert_nested_value(map: &mut ConfigTree, keys: &[String], value: ConfigValue) -> (r: Result<
    (),
    PathConflict,
>)
    requires
        keys@.len() >= 1,
    ensures
        match r {
            Ok(_) => insert_model(old(map)@, str_views(keys@), value@) == Some(final (map)@),
            Err(_) => insert_model(old(map)@, str_views(keys@), value@) is None && final (map)@
                == old(map)@,
        },
{
    proof {
        lemma_tree_model_is_entries_model(*map);
        assert(str_views(keys@).skip(0) =~= str_views(keys@));
    }
    let r = insert_entries(&mut map.entries, keys, 0, value);
    proof {
        lemma_tree_model_is_entries_model(*map);
    }
    r
}

impl ConfigTree {
    /// Looks up `key` among this tree's direct entries.
    #[verifier::loop_isolation(false)]
    pub fn get(&self, key: &str) -> (r: Option<&ConfigValue>)
        ensures
            match r {
                Some(v) => lookup_model(self@, key@) == Some(v@),
                None => lookup_model(self@, key@) is None,
            },
    {
        proof {
            lemma_tree_model_is_entries_model(*self);
        }
        let n = self.entries.len();
        let mut j: usize = 0;
        while j < n
            invariant
                j <= n,
                n == self.entries@.len(),
                forall|t: int| 0 <= t < j ==> self.entries@[t].0@ != key@,
            decreases n - j,
        {
            if crate::text::str_eq(self.entries[j].0.as_str(), key) {
                proof {
                    lemma_first_match(
                        entries_model(self.entries@),
                        key@,
                        j as int,
                        ValueModel::Bool(false),
                    );
                }
                return Some(&self.entries[j].1);
            }
            j += 1;
        }
        proof {
            lemma_no_match(entries_model(self.entries@), key@, ValueModel::Bool(false));
        }
        None
    }
}

impl ConfigValue {
    /// Looks up `key` in this value; succeeds only on a nested tree that has
    /// the key.
    pub fn get(&self, key: &str) -> (r: Option<&ConfigValue>)
        ensures
            match r {
                Some(v) => self@ matches ValueModel::Tree(es) && lookup_model(es, key@) == Some(
                    v@,
                ),
                None => !(self@ is Tree) || lookup_model(self@->Tree_0, key@) is None,
            },
    {
        match self {
            ConfigValue::Tree(t) => t.get(key),
            _ => None,
        }
    }
}

/// After replacing or appending `key` at one level, looking `key` up returns
/// the new value.
proof fn lemma_set_lookup(es: Seq<(Seq<char>, ValueModel)>, key: Seq<char>, v: ValueModel)
    ensures
        lookup_model(set_entry_model(es, key, v), key) == Some(v),
    decreases es.len(),
{
    if es.len() > 0 && es[0].0 != key {
        lemma_set_lookup(es.drop_first(), key, v);
        assert((seq![es[0]] + set_entry_model(es.drop_first(), key, v)).drop_first()
            =~= set_entry_model(es.drop_first(), key, v));
    }
}

/// Law: for any key path, a successful insertion makes lookup along that very
/// path reach the inserted value, and every proper prefix of the path reach a
/// tree node.
pub proof fn lemma_insert_path_lookup(
    es: Seq<(Seq<char>, ValueModel)>,
    keys: Seq<Seq<char>>,
    v: ValueModel,
)
    requires
        keys.len() >= 1,
        insert_model(es, keys, v) is Some,
    ensures
        path_lookup(insert_model(es, keys, v)->0, keys) == Some(v),
        forall|j: int|
            1 <= j < keys.len() ==> (#[trigger] path_lookup(insert_model(es, keys, v)->0, keys.take(j))
                matches Some(m) && m is Tree),
    decreases keys.len(),
{
    let es2 = insert_model(es, keys, v)->0;
    if keys.len() == 1 {
        lemma_set_lookup(es, keys[0], v);
    } else {
        let sub = match lookup_model(es, keys[0]) {
            None => Seq::<(Seq<char>, ValueModel)>::empty(),
            Some(ValueModel::Tree(s)) => s,
            Some(_) => Seq::<(Seq<char>, ValueModel)>::empty(),
        };
        let s2 = insert_model(sub, keys.drop_first(), v)->0;
        assert(es2 == set_entry_model(es, keys[0], ValueModel::Tree(s2)));
        lemma_set_lookup(es, keys[0], ValueModel::Tree(s2));
        lemma_insert_path_lookup(sub, keys.drop_first(), v);
        assert(path_lookup(es2, keys) == path_lookup(s2, keys.drop_first()));
        assert forall|j: int| 1 <= j < keys.len() implies (#[trigger] path_lookup(es2, keys.take(j))
            matches Some(m) && m is Tree) by {
            if j == 1 {
                assert(path_lookup(es2, keys.take(1)) == lookup_model(es2, keys[0]));
            } else {
                assert(keys.drop_first().take(j - 1) =~= keys.take(j).drop_first());
                assert(path_lookup(es2, keys.take(j)) == path_lookup(
                    s2,
                    keys.take(j).drop_first(),
                ));
            }
        }
    }
}

/// Law: inserting a value at a single-segment key path into an empty tree
/// yields a tree whose direct lookup of that key returns the value.
pub proof fn lemma_insert_single_into_empty(key: Seq<char>, v: ValueModel)
    ensures
        insert_model(Seq::empty(), seq![key], v) matches Some(es) && lookup_model(es, key) == Some(
            v,
        ),
{
    lemma_set_lookup(Seq::empty(), key, v);
}


impl ConfigTree {
    /// The entries of this tree level, in order.
    pub fn entries(&self) -> (r: &Vec<(String, ConfigValue)>)
        ensures
            r@.len() == self@.len(),
            forall|i: int|
                #![trigger r@[i]]
                0 <= i < r@.len() ==> self@[i] == (r@[i].0@, value_model(r@[i].1)),
    {
        proof {
            lemma_tree_model_is_entries_model(*self);
        }
        &self.entries
    }
}


/// Well-formedness of one level's entries: keys unique here and in every
/// nested tree below.
pub open spec fn wf_entries(es: Seq<(Seq<char>, ValueModel)>) -> bool
    decreases es,
{
    &&& forall|i: int, j: int|
        #![trigger es[i], es[j]]
        0 <= i < j < es.len() ==> es[i].0 != es[j].0
    &&& forall|i: int| 0 <= i < es.len() ==> wf_value((#[trigger] es[i]).1)
}

/// Well-formedness of a value: every tree below it has unique keys.
pub open spec fn wf_value(m: ValueModel) -> bool
    decreases m,
{
    match m {
        ValueModel::Tree(es) => wf_entries(es),
        _ => true,
    }
}

/// Some entry of `es` has key `key`.
pub open spec fn has_key(es: Seq<(Seq<char>, ValueModel)>, key: Seq<char>) -> bool {
    exists|t: int| 0 <= t < es.len() && (#[trigger] es[t]).0 == key
}

proof fn lemma_wf_drop_first(es: Seq<(Seq<char>, ValueModel)>)
    requires
        wf_entries(es),
        es.len() > 0,
    ensures
        wf_entries(es.drop_first()),
{
    let d = es.drop_first();
    assert(forall|i: int| 0 <= i < d.len() ==> #[trigger] d[i] == es[i + 1]);
}

/// A value found in a well-formed level is itself well-formed.
proof fn lemma_lookup_wf(es: Seq<(Seq<char>, ValueModel)>, key: Seq<char>)
    requires
        wf_entries(es),
    ensures
        lookup_model(es, key) matches Some(m) ==> wf_value(m),
    decreases es.len(),
{
    if es.len() > 0 && es[0].0 != key {
        lemma_wf_drop_first(es);
        lemma_lookup_wf(es.drop_first(), key);
    }
}

/// Replacing or appending a well-formed value keeps the level well-formed,
/// and introduces no key other than the one set.
proof fn lemma_set_entry_wf(es: Seq<(Seq<char>, ValueModel)>, key: Seq<char>, v: ValueModel)
    requires
        wf_entries(es),
        wf_value(v),
    ensures
        wf_entries(set_entry_model(es, key, v)),
        forall|k2: Seq<char>| #[trigger] has_key(set_entry_model(es, key, v), k2) ==> k2 == key
            || has_key(es, k2),
    decreases es.len(),
{
    let r = set_entry_model(es, key, v);
    if es.len() == 0 {
        assert(forall|i: int| 0 <= i < r.len() ==> #[trigger] r[i] == (key, v));
    } else if es[0].0 == key {
        let d = es.drop_first();
        assert(forall|i: int| 1 <= i < r.len() ==> #[trigger] r[i] == es[i]);
        assert(r[0] == (key, v));
        assert forall|i: int, j: int|
            #![trigger r[i], r[j]]
            0 <= i < j < r.len() implies r[i].0 != r[j].0 by {
            if i == 0 {
                assert(es[0].0 != es[j].0);
            }
        }
        assert forall|k2: Seq<char>| #[trigger] has_key(r, k2) implies k2 == key || has_key(
            es,
            k2,
        ) by {
            let t = choose|t: int| 0 <= t < r.len() && (#[trigger] r[t]).0 == k2;
            if t > 0 {
                assert(es[t].0 == k2);
            }
        }
    } else {
        lemma_wf_drop_first(es);
        lemma_set_entry_wf(es.drop_first(), key, v);
        let d = set_entry_model(es.drop_first(), key, v);
        assert(forall|i: int| 1 <= i < r.len() ==> #[trigger] r[i] == d[i - 1]);
        assert(r[0] == es[0]);
        assert forall|i: int, j: int|
            #![trigger r[i], r[j]]
            0 <= i < j < r.len() implies r[i].0 != r[j].0 by {
            if i == 0 {
                assert(has_key(d, r[j].0));
                if r[j].0 != key {
                    assert(has_key(es.drop_first(), r[j].0));
                    let t = choose|t: int|
                        0 <= t < es.drop_first().len() && (#[trigger] es.drop_first()[t]).0
                            == r[j].0;
                    assert(es[t + 1].0 == r[j].0);
                    assert(es[0].0 != es[t + 1].0);
                }
            }
        }
        assert forall|k2: Seq<char>| #[trigger] has_key(r, k2) implies k2 == key || has_key(
            es,
            k2,
        ) by {
            let t = choose|t: int| 0 <= t < r.len() && (#[trigger] r[t]).0 == k2;
            if t == 0 {
                assert(es[0].0 == k2);
            } else {
                assert(has_key(d, k2));
                if k2 != key {
                    let u = choose|u: int|
                        0 <= u < es.drop_first().len() && (#[trigger] es.drop_first()[u]).0 == k2;
                    assert(es[u + 1].0 == k2);
                }
            }
        }
    }
}

/// Law: the tree invariant. A successful insertion into a tree whose keys are
/// unique at every level, of a value with the same property, yields a tree
/// whose keys are again unique at every level.
pub proof fn lemma_insert_preserves_wf(
    es: Seq<(Seq<char>, ValueModel)>,
    keys: Seq<Seq<char>>,
    v: ValueModel,
)
    requires
        wf_entries(es),
        wf_value(v),
        keys.len() >= 1,
    ensures
        insert_model(es, keys, v) matches Some(es2) ==> wf_entries(es2),
    decreases keys.len(),
{
    if keys.len() == 1 {
        lemma_set_entry_wf(es, keys[0], v);
    } else {
        lemma_lookup_wf(es, keys[0]);
        match lookup_model(es, keys[0]) {
            None => {
                lemma_insert_preserves_wf(Seq::empty(), keys.drop_first(), v);
                match insert_model(Seq::empty(), keys.drop_first(), v) {
                    Some(s2) => lemma_set_entry_wf(es, keys[0], ValueModel::Tree(s2)),
                    None => {},
                }
            },
            Some(ValueModel::Tree(sub)) => {
                lemma_insert_preserves_wf(sub, keys.drop_first(), v);
                match insert_model(sub, keys.drop_first(), v) {
                    Some(s2) => lemma_set_entry_wf(es, keys[0], ValueModel::Tree(s2)),
                    None => {},
                }
            },
            Some(_) => {},
        }
    }
}

} // verus!
