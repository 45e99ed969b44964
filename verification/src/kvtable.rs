//! Association lists with unique keys, read as maps.
//!
//! The database and the file index key their tables by structured values
//! (block identities, test identities, paths). Keys compare by their
//! mathematical view; `put` replaces the entry that already carries the
//! key, so keys stay unique and the list reads as a map.

use vstd::prelude::*;

verus! {

/// A key type for association-list tables: decidable equality of views,
/// and copying.
pub trait TableKey: View + Sized {
    /// Whether two keys are the same.
    fn table_key_eq(&self, other: &Self) -> (r: bool)
        ensures
            r == (self@ == other@),
    ;

    /// A copy of this key.
    fn table_key_dup(&self) -> (r: Self)
        ensures
            r@ == self@,
    ;
}

impl TableKey for String {
    fn table_key_eq(&self, other: &String) -> (r: bool) {
        *self == *other
    }

    fn table_key_dup(&self) -> (r: String) {
        self.clone()
    }
}

/// The map read off an association list; on duplicate keys the later
/// entry wins.
pub open spec fn table_map<K: TableKey, V>(entries: Seq<(K, V)>) -> Map<<K as View>::V, V>
    decreases entries.len(),
{
    if entries.len() == 0 {
        Map::empty()
    } else {
        table_map(entries.drop_last()).insert(entries.last().0@, entries.last().1)
    }
}

/// No two entries share a key.
pub open spec fn table_unique<K: TableKey, V>(entries: Seq<(K, V)>) -> bool {
    forall|i: int, j: int|
        0 <= i < j < entries.len() ==> (#[trigger] entries[i]).0@ != (#[trigger] entries[j]).0@
}

/// What the table's map holds: a key is present exactly when some entry
/// carries it, and with unique keys each entry gives its key's value.
pub proof fn lemma_table_map_props<K: TableKey, V>(entries: Seq<(K, V)>)
    ensures
        forall|k: <K as View>::V| #[trigger]
            table_map(entries).contains_key(k) <==> exists|i: int|
                0 <= i < entries.len() && (#[trigger] entries[i]).0@ == k,
        table_unique(entries) ==> forall|i: int|
            0 <= i < entries.len() ==> table_map(entries)[(#[trigger] entries[i]).0@]
                == entries[i].1,
    decreases entries.len(),
{
    if entries.len() > 0 {
        lemma_table_map_props(entries.drop_last());
        assert forall|k: <K as View>::V| #[trigger]
            table_map(entries).contains_key(k) implies exists|i: int|
            0 <= i < entries.len() && (#[trigger] entries[i]).0@ == k by {
            if entries.last().0@ == k {
                assert(entries[entries.len() - 1].0@ == k);
            } else {
                assert(table_map(entries.drop_last()).contains_key(k));
                let i = choose|i: int|
                    0 <= i < entries.drop_last().len() && (#[trigger] entries.drop_last()[i]).0@
                        == k;
                assert(entries.drop_last()[i] == entries[i]);
                assert(entries[i].0@ == k);
            }
        }
        assert forall|k: <K as View>::V|
            (exists|i: int|
                0 <= i < entries.len() && (#[trigger] entries[i]).0@
                    == k) implies #[trigger] table_map(entries).contains_key(k) by {
            let i = choose|i: int| 0 <= i < entries.len() && (#[trigger] entries[i]).0@ == k;
            if i < entries.len() - 1 {
                assert(entries.drop_last()[i].0@ == k);
                assert(exists|j: int|
                    0 <= j < entries.drop_last().len() && (#[trigger] entries.drop_last()[j]).0@
                        == k);
                assert(table_map(entries.drop_last()).contains_key(k));
            }
        }
        if table_unique(entries) {
            assert(table_unique(entries.drop_last()));
            assert forall|i: int| 0 <= i < entries.len() implies table_map(entries)[(
            #[trigger] entries[i]).0@] == entries[i].1 by {
                if i < entries.len() - 1 {
                    assert(entries[i].0@ != entries.last().0@);
                    assert(entries.drop_last()[i] == entries[i]);
                }
            }
        }
    }
}

/// Look a key up.
pub fn table_get<'a, K: TableKey, V>(entries: &'a Vec<(K, V)>, key: &K) -> (r: Option<&'a V>)
    requires
        table_unique(entries@),
    ensures
        match r {
            Some(v) => table_map(entries@).contains_key(key@) && *v == table_map(entries@)[key@],
            None => !table_map(entries@).contains_key(key@),
        },
{
    proof {
        lemma_table_map_props(entries@);
    }
    let mut i: usize = 0;
    while i < entries.len()
        invariant
            0 <= i <= entries@.len(),
            table_unique(entries@),
            forall|j: int| 0 <= j < i ==> (#[trigger] entries@[j]).0@ != key@,
            forall|k: <K as View>::V| #[trigger]
                table_map(entries@).contains_key(k) <==> exists|j: int|
                    0 <= j < entries@.len() && (#[trigger] entries@[j]).0@ == k,
            forall|j: int|
                0 <= j < entries@.len() ==> table_map(entries@)[(#[trigger] entries@[j]).0@]
                    == entries@[j].1,
        decreases entries@.len() - i,
    {
        if entries[i].0.table_key_eq(key) {
            return Some(&entries[i].1);
        }
        i = i + 1;
    }
    None
}

/// Set a key's value, replacing any entry that already carries the key.
pub fn table_put<K: TableKey, V>(entries: &mut Vec<(K, V)>, key: &K, value: V)
    requires
        table_unique(old(entries)@),
    ensures
        table_unique(final(entries)@),
        table_map(final(entries)@) == table_map(old(entries)@).insert(key@, value),
        forall|i: int|
            0 <= i < final(entries)@.len() ==> (#[trigger] final(entries)@[i]).1 == value
                || exists|j: int|
                0 <= j < old(entries)@.len() && final(entries)@[i] == old(entries)@[j],
{
    proof {
        lemma_table_map_props(entries@);
    }
    let ghost orig = entries@;
    let mut found: Option<usize> = None;
    let mut i: usize = 0;
    while i < entries.len()
        invariant
            0 <= i <= entries@.len(),
            entries@ == orig,
            match found {
                Some(j) => j < i && entries@[j as int].0@ == key@,
                None => forall|j: int| 0 <= j < i ==> (#[trigger] entries@[j]).0@ != key@,
            },
        decreases entries@.len() - i,
    {
        if found.is_none() && entries[i].0.table_key_eq(key) {
            found = Some(i);
        }
        i = i + 1;
    }
    match found {
        Some(j) => {
            let removed = entries.remove(j);
            let ghost mid = entries@;
            entries.push((removed.0, value));
            proof {
                assert(mid =~= orig.remove(j as int));
                assert(table_unique(mid)) by {
                    assert forall|a: int, b: int| 0 <= a < b < mid.len() implies (
                    #[trigger] mid[a]).0@ != (#[trigger] mid[b]).0@ by {
                        let a2 = if a < j {
                            a
                        } else {
                            a + 1
                        };
                        let b2 = if b < j {
                            b
                        } else {
                            b + 1
                        };
                        assert(mid[a] == orig[a2] && mid[b] == orig[b2]);
                    }
                }
                assert forall|a: int| 0 <= a < mid.len() implies (#[trigger] mid[a]).0@ != key@ by {
                    let a2 = if a < j {
                        a
                    } else {
                        a + 1
                    };
                    assert(mid[a] == orig[a2]);
                    if a2 != j {
                        assert(orig[a2].0@ != orig[j as int].0@);
                    }
                }
                assert forall|a: int, b: int| 0 <= a < b < entries@.len() implies (
                #[trigger] entries@[a]).0@ != (#[trigger] entries@[b]).0@ by {
                    if b == entries@.len() - 1 {
                        assert(entries@[a] == mid[a]);
                    } else {
                        assert(entries@[a] == mid[a] && entries@[b] == mid[b]);
                    }
                }
                lemma_table_map_props(mid);
                lemma_table_map_props(orig);
                assert(entries@.drop_last() =~= mid);
                assert(removed.0@ == key@);
                assert(table_map(entries@) == table_map(mid).insert(key@, value));
                assert forall|k: <K as View>::V|
                    table_map(mid).contains_key(k) <==> (table_map(orig).contains_key(k) && k
                        != key@) by {
                    if table_map(mid).contains_key(k) {
                        let a = choose|a: int| 0 <= a < mid.len() && (#[trigger] mid[a]).0@ == k;
                        let a2 = if a < j {
                            a
                        } else {
                            a + 1
                        };
                        assert(orig[a2].0@ == k);
                    }
                    if table_map(orig).contains_key(k) && k != key@ {
                        let a = choose|a: int| 0 <= a < orig.len() && (#[trigger] orig[a]).0@ == k;
                        if a < j {
                            assert(mid[a].0@ == k);
                        } else if a > j {
                            assert(mid[a - 1].0@ == k);
                        }
                    }
                }
                assert forall|k: <K as View>::V| table_map(mid).contains_key(k) implies table_map(
                    mid,
                )[k] == table_map(orig)[k] by {
                    let a = choose|a: int| 0 <= a < mid.len() && (#[trigger] mid[a]).0@ == k;
                    let a2 = if a < j {
                        a
                    } else {
                        a + 1
                    };
                    assert(orig[a2].0@ == k);
                    assert(table_map(mid)[k] == mid[a].1);
                    assert(table_map(orig)[k] == orig[a2].1);
                }
                assert(table_map(entries@) =~= table_map(orig).insert(key@, value));
                assert forall|i2: int| 0 <= i2 < entries@.len() implies (
                #[trigger] entries@[i2]).1 == value || exists|j2: int|
                    0 <= j2 < orig.len() && entries@[i2] == orig[j2] by {
                    if i2 < entries@.len() - 1 {
                        let a2 = if i2 < j {
                            i2
                        } else {
                            i2 + 1
                        };
                        assert(entries@[i2] == mid[i2]);
                        assert(mid[i2] == orig[a2]);
                    }
                }
            }
        },
        None => {
            let ghost prev = entries@;
            entries.push((key.table_key_dup(), value));
            proof {
                assert(entries@.drop_last() =~= prev);
                assert(table_map(entries@) =~= table_map(prev).insert(key@, value));
                assert forall|a: int, b: int| 0 <= a < b < entries@.len() implies (
                #[trigger] entries@[a]).0@ != (#[trigger] entries@[b]).0@ by {
                    if b == entries@.len() - 1 {
                        assert(entries@[a] == prev[a]);
                    }
                }
                assert forall|i2: int| 0 <= i2 < entries@.len() implies (
                #[trigger] entries@[i2]).1 == value || exists|j2: int|
                    0 <= j2 < prev.len() && entries@[i2] == prev[j2] by {
                    if i2 < entries@.len() - 1 {
                        assert(entries@[i2] == prev[i2]);
                    }
                }
            }
        },
    }
}

} // verus!
