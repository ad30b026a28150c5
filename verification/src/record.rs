//! File records as the scanner hands them over, and the sorted catalog of
//! the records that can take part in deduplication.

use vstd::prelude::*;
use crate::order::{
    arrange, ascending, distinct_tags, key_lt, lemma_ascending_unique, sort_keys, Key,
};

verus! {

/// The token that identifies a physical file. Two records with the same
/// known token are the same file on disk under two names.
#[derive(Clone, Copy, Debug, PartialEq, Eq, Structural)]
pub enum Identity {
    /// Not looked up yet; looking it up is costly on some platforms.
    Pending,
    /// Looked up.
    Known(u128),
    /// Looked up without success. Such a file is never grouped with another,
    /// not even with another file whose identity is unknown.
    Unknown,
}

/// One file found by the scanner.
#[derive(Clone, Debug)]
pub struct FileRecord {
    /// Index of the file's directory in the directory table.
    pub dir_index: usize,
    pub identity: Identity,
    /// Length in bytes.
    pub size: u64,
    /// Name within the directory.
    pub name: String,
}

impl FileRecord {
    /// Fills in the identity of a record whose identity is pending: the
    /// token, or unknown if the lookup gave none. A record whose identity was
    /// settled before keeps it.
    pub fn resolve(&mut self, token: Option<u128>)
        ensures
            final(self).dir_index == old(self).dir_index,
            final(self).size == old(self).size,
            final(self).name == old(self).name,
            final(self).identity == (if old(self).identity is Pending {
                match token {
                    Some(t) => Identity::Known(t),
                    None => Identity::Unknown,
                }
            } else {
                old(self).identity
            }),
    {
        match self.identity {
            Identity::Pending => {
                self.identity = match token {
                    Some(t) => Identity::Known(t),
                    None => Identity::Unknown,
                };
            },
            _ => {},
        }
    }
}

/// `key` is the key of the record it names: that record's size, its known
/// identity token, and its index.
pub open spec fn describes(files: Seq<FileRecord>, key: Key) -> bool {
    &&& key.2 < files.len()
    &&& key.0 == files[key.2 as int].size
    &&& files[key.2 as int].identity == Identity::Known(key.1)
}

/// `keys` is the catalog of `files`: one key for each record with a known
/// identity and no other, in ascending order of size, then token, then
/// index.
pub open spec fn catalog_of(files: Seq<FileRecord>, keys: Seq<Key>) -> bool {
    &&& ascending(keys)
    &&& forall|p: int| 0 <= p < keys.len() ==> describes(files, #[trigger] keys[p])
    &&& forall|i: int|
        0 <= i < files.len() && (#[trigger] files[i]).identity is Known ==> exists|p: int|
            0 <= p < keys.len() && keys[p].2 == i
}

/// Builds the catalog of `files`. Records whose identity is pending or
/// unknown are left out: they take no part in deduplication.
pub fn catalog(files: &Vec<FileRecord>) -> (keys: Vec<Key>)
    ensures
        catalog_of(files@, keys@),
{
    let mut keys: Vec<Key> = Vec::new();
    let mut i: usize = 0;
    while i < files.len()
        invariant
            i <= files@.len(),
            forall|p: int| 0 <= p < keys@.len() ==> describes(files@, #[trigger] keys@[p]),
            forall|p: int| 0 <= p < keys@.len() ==> (#[trigger] keys@[p]).2 < i,
            distinct_tags(keys@),
            forall|j: int|
                0 <= j < i && (#[trigger] files@[j]).identity is Known ==> exists|p: int|
                    0 <= p < keys@.len() && keys@[p].2 == j,
        decreases files@.len() - i,
    {
        let ghost before = keys@;
        match files[i].identity {
            Identity::Known(token) => {
                keys.push((files[i].size as u128, token, i));
                proof {
                    assert forall|j: int|
                        0 <= j < i + 1 && (#[trigger] files@[j]).identity is Known implies exists|
                        p: int,
                    | 0 <= p < keys@.len() && keys@[p].2 == j by {
                        if j < i {
                            let p = choose|p: int| 0 <= p < before.len() && before[p].2 == j;
                            assert(keys@[p].2 == j);
                        } else {
                            assert(keys@[before.len() as int].2 == j);
                        }
                    }
                }
            },
            _ => {},
        }
        i += 1;
    }
    let ghost unsorted = keys@;
    sort_keys(&mut keys);
    proof {
        assert forall|p: int| 0 <= p < keys@.len() implies describes(
            files@,
            #[trigger] keys@[p],
        ) by {
            assert(keys@.contains(keys@[p]));
            assert(unsorted.contains(keys@[p]));
        }
        assert forall|j: int|
            0 <= j < files@.len() && (#[trigger] files@[j]).identity is Known implies exists|p: int|
            0 <= p < keys@.len() && keys@[p].2 == j by {
            let q = choose|q: int| 0 <= q < unsorted.len() && unsorted[q].2 == j;
            assert(unsorted.contains(unsorted[q]));
            assert(keys@.contains(unsorted[q]));
            let p = choose|p: int| 0 <= p < keys@.len() && keys@[p] == unsorted[q];
            assert(keys@[p].2 == j);
        }
    }
    keys
}

/// A record list has one catalog only.
pub proof fn lemma_catalog_unique(files: Seq<FileRecord>, a: Seq<Key>, b: Seq<Key>)
    requires
        catalog_of(files, a),
        catalog_of(files, b),
    ensures
        a == b,
{
    assert forall|k: Key| a.contains(k) implies b.contains(k) by {
        let p = choose|p: int| 0 <= p < a.len() && a[p] == k;
        assert(describes(files, a[p]));
        let i = k.2 as int;
        assert(files[i].identity is Known);
        let q = choose|q: int| 0 <= q < b.len() && b[q].2 == i;
        assert(describes(files, b[q]));
        assert(b[q] == k);
    }
    assert forall|k: Key| b.contains(k) implies a.contains(k) by {
        let p = choose|p: int| 0 <= p < b.len() && b[p] == k;
        assert(describes(files, b[p]));
        let i = k.2 as int;
        assert(files[i].identity is Known);
        let q = choose|q: int| 0 <= q < a.len() && a[q].2 == i;
        assert(describes(files, a[q]));
        assert(a[q] == k);
    }
    lemma_ascending_unique(a, b);
}

/// File `i` still needs its identity looked up: it is pending, and another
/// file has the same size. A file whose size no other file shares has no
/// possible duplicate, and the lookup is saved.
pub open spec fn needs_identity(files: Seq<FileRecord>, i: int) -> bool {
    &&& 0 <= i < files.len()
    &&& files[i].identity is Pending
    &&& exists|j: int| 0 <= j < files.len() && j != i && files[j].size == files[i].size
}

/// Position `p` of a size order has a neighbour of the same size.
spec fn shares_size(keys: Seq<Key>, p: int) -> bool {
    ||| (0 < p < keys.len() && keys[p - 1].0 == keys[p].0)
    ||| (0 <= p && p + 1 < keys.len() && keys[p + 1].0 == keys[p].0)
}

/// In an ascending order, two positions of one size have the same size as
/// everything between them.
proof fn lemma_size_between(keys: Seq<Key>, p: int, q: int, m: int)
    requires
        ascending(keys),
        0 <= p <= m <= q < keys.len(),
        keys[p].0 == keys[q].0,
    ensures
        keys[m].0 == keys[p].0,
{
    if p < m {
        assert(key_lt(keys[p], keys[m]));
    }
    if m < q {
        assert(key_lt(keys[m], keys[q]));
    }
}

/// Lists the files whose identity is to be looked up before deduplication:
/// those that [`needs_identity`] names, each once.
pub fn unresolved(files: &Vec<FileRecord>) -> (wanted: Vec<usize>)
    ensures
        wanted@.no_duplicates(),
        forall|i: usize| #[trigger] wanted@.contains(i) <==> needs_identity(files@, i as int),
{
    let mut sizes: Vec<Option<(u128, u128)>> = Vec::new();
    let mut i: usize = 0;
    while i < files.len()
        invariant
            i <= files@.len(),
            sizes@.len() == i,
            forall|j: int| 0 <= j < i ==> #[trigger] sizes@[j] == Some((files@[j].size as u128, 0u128)),
        decreases files@.len() - i,
    {
        sizes.push(Some((files[i].size as u128, 0u128)));
        i += 1;
    }
    let keys = arrange(&sizes);
    let total = keys.len();
    let mut wanted: Vec<usize> = Vec::new();
    let ghost mut at: Seq<int> = Seq::empty();
    let mut p: usize = 0;
    proof {
        assert forall|j: int| 0 <= j < files@.len() implies keys@.contains(
            (files@[j].size as u128, 0u128, j as usize),
        ) by {
            let k: Key = (files@[j].size as u128, 0u128, j as usize);
            assert(sizes@[k.2 as int] == Some((k.0, k.1)));
        }
    }
    while p < total
        invariant
            total == keys@.len(),
            sizes@.len() == files@.len(),
            p <= total,
            ascending(keys@),
            distinct_tags(keys@),
            forall|j: int| 0 <= j < keys@.len() ==> (#[trigger] keys@[j]).2 < files@.len(),
            forall|j: int|
                0 <= j < keys@.len() ==> (#[trigger] keys@[j]).0 == files@[keys@[j].2 as int].size,
            at.len() == wanted@.len(),
            forall|k: int|
                0 <= k < at.len() ==> 0 <= #[trigger] at[k] < p && wanted@[k] == keys@[at[k]].2
                    && shares_size(keys@, at[k]) && files@[wanted@[k] as int].identity is Pending,
            forall|k: int, l: int| 0 <= k < l < at.len() ==> at[k] < at[l],
            forall|q: int|
                0 <= q < p && shares_size(keys@, q) && files@[(
                #[trigger] keys@[q]).2 as int].identity is Pending ==> exists|k: int|
                    0 <= k < at.len() && at[k] == q,
        decreases total - p,
    {
        let shared = (p > 0 && keys[p - 1].0 == keys[p].0) || (p + 1 < total && keys[p + 1].0
            == keys[p].0);
        let file = keys[p].2;
        let pending = match files[file].identity {
            Identity::Pending => true,
            _ => false,
        };
        if shared && pending {
            let ghost before = at;
            wanted.push(file);
            proof {
                at = at.push(p as int);
                assert forall|q: int|
                    0 <= q < p + 1 && shares_size(keys@, q) && files@[(
                    #[trigger] keys@[q]).2 as int].identity is Pending implies exists|k: int|
                    0 <= k < at.len() && at[k] == q by {
                    if q < p {
                        let k = choose|k: int| 0 <= k < before.len() && before[k] == q;
                        assert(at[k] == q);
                    } else {
                        assert(at[before.len() as int] == q);
                    }
                }
            }
        }
        p += 1;
    }
    proof {
        assert forall|k: int, l: int| 0 <= k < wanted@.len() && 0 <= l < wanted@.len() && k
            != l implies wanted@[k] != wanted@[l] by {
            if k < l {
                assert(at[k] < at[l]);
            } else {
                assert(at[l] < at[k]);
            }
        }
        assert forall|i: usize| #[trigger] wanted@.contains(i) <==> needs_identity(
            files@,
            i as int,
        ) by {
            if wanted@.contains(i) {
                let k = choose|k: int| 0 <= k < wanted@.len() && wanted@[k] == i;
                let q = at[k];
                if 0 < q && keys@[q - 1].0 == keys@[q].0 {
                    assert(keys@[q - 1].2 != keys@[q].2);
                    assert(files@[keys@[q - 1].2 as int].size == files@[i as int].size);
                } else {
                    assert(keys@[q + 1].2 != keys@[q].2);
                    assert(files@[keys@[q + 1].2 as int].size == files@[i as int].size);
                }
            }
            if needs_identity(files@, i as int) {
                let j = choose|j: int|
                    0 <= j < files@.len() && j != i && files@[j].size == files@[i as int].size;
                let ki: Key = (files@[i as int].size as u128, 0u128, i);
                let kj: Key = (files@[j].size as u128, 0u128, j as usize);
                assert(keys@.contains(ki));
                assert(keys@.contains(kj));
                let q = choose|q: int| 0 <= q < keys@.len() && keys@[q] == ki;
                let r = choose|r: int| 0 <= r < keys@.len() && keys@[r] == kj;
                assert(q != r);
                if q < r {
                    lemma_size_between(keys@, q, r, q + 1);
                } else {
                    lemma_size_between(keys@, r, q, q - 1);
                }
                assert(shares_size(keys@, q));
                let k = choose|k: int| 0 <= k < at.len() && at[k] == q;
                assert(wanted@[k] == i);
            }
        }
    }
    wanted
}

} // verus!
