//! The remote directories to create before copying a directory tree: the
//! remote base and the parent of each file's remote path, each once.

use crate::posix_path::{path_parent, path_parent_of};
use crate::remote::{remote_join_path, remote_joined};
use crate::text::chars_of;
use std::collections::HashMap;
use vstd::prelude::*;

verus! {

broadcast use vstd::std_specs::hash::group_hash_axioms;

/// A modulus for the bucket key of a text.
pub const TEXT_KEY_MODULUS: u64 = 1_000_000_007;

/// The bucket in which a text is filed: a polynomial hash of its characters.
pub open spec fn text_key(s: Seq<char>) -> u64
    decreases s.len(),
{
    if s.len() == 0 {
        0
    } else {
        ((text_key(s.drop_last()) as int * 31 + (s.last() as u32) as int) % (TEXT_KEY_MODULUS as int)) as u64
    }
}

fn key_of(s: &String) -> (key: u64)
    ensures
        key == text_key(s@),
{
    let chars = chars_of(s.as_str());
    let mut key: u64 = 0;
    for i in 0..chars.len()
        invariant
            chars@ == s@,
            key == text_key(chars@.take(i as int)),
            key < TEXT_KEY_MODULUS,
    {
        proof {
            assert(chars@.take(i + 1).drop_last() =~= chars@.take(i as int));
        }
        key = (key * 31 + chars[i] as u32 as u64) % TEXT_KEY_MODULUS;
    }
    proof {
        assert(chars@.take(chars@.len() as int) =~= chars@);
    }
    key
}

/// The views of a list of strings.
pub open spec fn texts(v: Seq<String>) -> Seq<Seq<char>> {
    v.map_values(|s: String| s@)
}

/// A list of distinct strings, in the order they were first added.
pub struct TextSet {
    items: Vec<String>,
    buckets: HashMap<u64, Vec<usize>>,
}

impl TextSet {
    /// The strings, in the order they were first added.
    pub closed spec fn items(&self) -> Seq<Seq<char>> {
        texts(self.items@)
    }

    /// Each string is filed under its key, and no string occurs twice.
    pub closed spec fn wf(&self) -> bool {
        &&& forall|k: u64|
            #[trigger] self.buckets@.contains_key(k) ==> forall|j: int|
                0 <= j < self.buckets@[k]@.len() ==> (#[trigger] self.buckets@[k]@[j])
                    < self.items@.len() && text_key(self.items@[self.buckets@[k]@[j] as int]@) == k
        &&& forall|i: int|
            0 <= i < self.items@.len() ==> {
                let k = text_key((#[trigger] self.items@[i])@);
                &&& self.buckets@.contains_key(k)
                &&& exists|j: int|
                    0 <= j < self.buckets@[k]@.len() && #[trigger] self.buckets@[k]@[j] as int == i
            }
        &&& forall|i: int, j: int|
            0 <= i < j < self.items@.len() ==> (#[trigger] self.items@[i])@ != (#[trigger] self.items@[j])@
    }

    /// No string yet.
    pub fn new() -> (set: Self)
        ensures
            set.wf(),
            set.items() == Seq::<Seq<char>>::empty(),
    {
        let set = TextSet { items: Vec::new(), buckets: HashMap::new() };
        assert(set.items() =~= Seq::<Seq<char>>::empty());
        set
    }

    /// Adds `s` unless an equal string is already there.
    pub fn insert(&mut self, s: String)
        requires
            old(self).wf(),
        ensures
            final(self).wf(),
            final(self).items() == (if old(self).items().contains(s@) {
                old(self).items()
            } else {
                old(self).items().push(s@)
            }),
    {
        let key = key_of(&s);
        let ghost old_items = self.items@;
        let ghost old_buckets = self.buckets@;
        let mut bucket = match self.buckets.remove(&key) {
            Some(b) => b,
            None => Vec::new(),
        };
        let ghost old_bucket = bucket@;
        let ghost removed = bucket;
        assert(old_buckets.contains_key(key) ==> removed == old_buckets[key]);
        assert(old_buckets.contains_key(key) ==> old_bucket == old_buckets[key]@);
        assert(!old_buckets.contains_key(key) ==> old_bucket.len() == 0);
        assert forall|jj: int| 0 <= jj < old_bucket.len() implies #[trigger] old_bucket[jj] < old_items.len() by {
            assert(old_buckets.contains_key(key));
        }
        let mut j: usize = 0;
        while j < bucket.len()
            invariant
                old(self).wf(),
                old(self).items@ == old_items,
                old(self).buckets@ == old_buckets,
                bucket@ == old_bucket,
                bucket == removed,
                old_buckets.contains_key(key) ==> removed == old_buckets[key],
                old_buckets.contains_key(key) ==> old_bucket == old_buckets[key]@,
                !old_buckets.contains_key(key) ==> old_bucket.len() == 0,
                forall|jj: int| 0 <= jj < old_bucket.len() ==> #[trigger] old_bucket[jj] < old_items.len(),
                self.buckets@ == old_buckets.remove(key),
                self.items@ == old_items,
                j <= bucket@.len(),
                forall|jj: int|
                    0 <= jj < j ==> old_items[#[trigger] old_bucket[jj] as int]@ != s@,
                forall|k: u64|
                    #[trigger] old_buckets.contains_key(k) ==> forall|jj: int|
                        0 <= jj < old_buckets[k]@.len() ==> (#[trigger] old_buckets[k]@[jj])
                            < old_items.len() && text_key(old_items[old_buckets[k]@[jj] as int]@) == k,
            decreases bucket@.len() - j,
        {
            let i = bucket[j];
            if self.items[i] == s {
                self.buckets.insert(key, bucket);
                proof {
                    assert(old_buckets.contains_key(key));
                    assert(self.buckets@ =~= old_buckets);
                    assert(old_items[i as int]@ == s@);
                    assert(texts(old_items)[i as int] == s@);
                }
                return;
            }
            j = j + 1;
        }
        let n = self.items.len();
        proof {
            assert forall|i: int| 0 <= i < old_items.len() implies old_items[i]@ != s@ by {
                if old_items[i]@ == s@ {
                    let k = text_key(old_items[i]@);
                    let jj = choose|jj: int|
                        0 <= jj < old_buckets[k]@.len() && #[trigger] old_buckets[k]@[jj] as int == i;
                    assert(old_bucket[jj] as int == i);
                }
            }
            assert(!texts(old_items).contains(s@)) by {
                if texts(old_items).contains(s@) {
                    let i = choose|i: int| 0 <= i < texts(old_items).len() && texts(old_items)[i] == s@;
                    assert(old_items[i]@ == s@);
                }
            }
        }
        bucket.push(n);
        self.buckets.insert(key, bucket);
        self.items.push(s);
        proof {
            assert forall|k: u64| #[trigger] self.buckets@.contains_key(k) implies forall|jj: int|
                0 <= jj < self.buckets@[k]@.len() ==> (#[trigger] self.buckets@[k]@[jj])
                    < self.items@.len() && text_key(self.items@[self.buckets@[k]@[jj] as int]@) == k by {
                if k == key {
                    assert forall|jj: int| 0 <= jj < self.buckets@[k]@.len() implies (
                    #[trigger] self.buckets@[k]@[jj]) < self.items@.len() && text_key(
                        self.items@[self.buckets@[k]@[jj] as int]@,
                    ) == k by {
                        if jj < old_bucket.len() {
                            assert(self.buckets@[k]@[jj] == old_bucket[jj]);
                        }
                    }
                } else {
                    assert(old_buckets.contains_key(k));
                    assert(self.buckets@[k] == old_buckets[k]);
                }
            }
            assert forall|i: int| 0 <= i < self.items@.len() implies {
                let k = text_key((#[trigger] self.items@[i])@);
                &&& self.buckets@.contains_key(k)
                &&& exists|j: int|
                    0 <= j < self.buckets@[k]@.len() && #[trigger] self.buckets@[k]@[j] as int == i
            } by {
                let k = text_key(self.items@[i]@);
                if i < n {
                    assert(self.items@[i] == old_items[i]);
                    let jj = choose|jj: int|
                        0 <= jj < old_buckets[k]@.len() && #[trigger] old_buckets[k]@[jj] as int == i;
                    if k == key {
                        assert(self.buckets@[k]@[jj] as int == i);
                    } else {
                        assert(old_buckets.contains_key(k));
                        assert(self.buckets@[k] == old_buckets[k]);
                        assert(self.buckets@[k]@[jj] as int == i);
                    }
                } else {
                    assert(self.buckets@[key]@[old_bucket.len() as int] as int == i);
                }
            }
            assert forall|i: int, j: int| 0 <= i < j < self.items@.len() implies (
            #[trigger] self.items@[i])@ != (#[trigger] self.items@[j])@ by {
                if j == n {
                    assert(old_items[i]@ != s@);
                } else {
                    assert(self.items@[i] == old_items[i]);
                    assert(self.items@[j] == old_items[j]);
                }
            }
            assert(texts(self.items@) =~= texts(old_items).push(s@));
        }
    }

    /// The strings, in the order they were first added.
    pub fn into_items(self) -> (items: Vec<String>)
        requires
            self.wf(),
        ensures
            texts(items@) == self.items(),
            texts(items@).no_duplicates(),
    {
        proof {
            assert forall|i: int, j: int| 0 <= i < texts(self.items@).len() && 0 <= j < texts(self.items@).len() && i != j implies texts(self.items@)[i] != texts(self.items@)[j] by {
                if i < j {
                    assert(self.items@[i]@ != self.items@[j]@);
                } else {
                    assert(self.items@[j]@ != self.items@[i]@);
                }
            }
        }
        self.items
    }
}

/// The remote directory of a file at `relative` under `base`, if the
/// relative path has a parent.
pub open spec fn parent_dir_of(base: Seq<char>, relative: Seq<char>) -> Option<Seq<char>> {
    match path_parent(relative) {
        Some(parent) => Some(remote_joined(base, parent)),
        None => None,
    }
}

/// Whether `dir` is one of the remote directories to create: the remote
/// base, or the remote parent of a file whose path relative to the source
/// has a parent.
pub open spec fn is_dir_to_create(base: Seq<char>, relative_files: Seq<Seq<char>>, dir: Seq<char>) -> bool {
    ||| dir == base
    ||| exists|i: int|
        0 <= i < relative_files.len() && parent_dir_of(base, #[trigger] relative_files[i]) == Some(dir)
}

/// The remote directories to create before copying files at the given paths
/// relative to the source, each named once.
pub fn remote_dirs_to_create(base: &str, relative_files: &[String]) -> (dirs: Vec<String>)
    ensures
        texts(dirs@).no_duplicates(),
        forall|d: Seq<char>| texts(dirs@).contains(d) <==> is_dir_to_create(base@, texts(relative_files@), d),
{
    let mut set = TextSet::new();
    set.insert(base.to_owned());
    proof {
        assert(set.items() =~= seq![base@]);
        assert forall|d: Seq<char>| set.items().contains(d) <==> d == base@ by {
            if d == base@ {
                assert(set.items()[0] == d);
            }
        }
    }
    let ghost rels = texts(relative_files@);
    for i in 0..relative_files.len()
        invariant
            set.wf(),
            rels == texts(relative_files@),
            forall|d: Seq<char>|
                set.items().contains(d) <==> (d == base@ || exists|k: int|
                    0 <= k < i && parent_dir_of(base@, #[trigger] rels[k]) == Some(d)),
    {
        let ghost before = set.items();
        match path_parent_of(relative_files[i].as_str()) {
            Some(parent) => {
                let dir = remote_join_path(base, parent.as_str());
                let ghost dv = dir@;
                set.insert(dir);
                proof {
                    assert(rels[i as int] == relative_files@[i as int]@);
                    assert(parent_dir_of(base@, rels[i as int]) == Some(dv));
                    assert forall|d: Seq<char>| set.items().contains(d) <==> (d == base@ || exists|k: int|
                        0 <= k < i + 1 && parent_dir_of(base@, #[trigger] rels[k]) == Some(d)) by {
                        if d == dv {
                            assert(set.items().contains(d)) by {
                                if !before.contains(d) {
                                    assert(set.items()[set.items().len() - 1] == d);
                                }
                            }
                        } else {
                            if set.items().contains(d) {
                                assert(before.contains(d)) by {
                                    if !before.contains(dv) {
                                        let j = choose|j: int| 0 <= j < set.items().len() && set.items()[j] == d;
                                        assert(j < before.len());
                                        assert(before[j] == d);
                                    }
                                }
                            }
                            if before.contains(d) {
                                assert(set.items().contains(d)) by {
                                    if !before.contains(dv) {
                                        let j = choose|j: int| 0 <= j < before.len() && before[j] == d;
                                        assert(set.items()[j] == d);
                                    }
                                }
                            }
                        }
                    }
                }
            },
            None => {
                proof {
                    assert(rels[i as int] == relative_files@[i as int]@);
                    assert(parent_dir_of(base@, rels[i as int]) is None);
                    assert forall|d: Seq<char>| set.items().contains(d) <==> (d == base@ || exists|k: int|
                        0 <= k < i + 1 && parent_dir_of(base@, #[trigger] rels[k]) == Some(d)) by {
                        if exists|k: int| 0 <= k < i + 1 && parent_dir_of(base@, #[trigger] rels[k]) == Some(d) {
                            let k = choose|k: int| 0 <= k < i + 1 && parent_dir_of(base@, #[trigger] rels[k]) == Some(d);
                            assert(k < i);
                        }
                    }
                }
            },
        }
    }
    set.into_items()
}

} // verus!
