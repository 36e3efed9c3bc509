//! An in-memory key/value response cache with the operations the rest
//! of the system asks of its cache server: set, get, existence,
//! invalidation, and key search by fragment.  The network client that
//! mirrors this store into an external cache process lives outside the
//! library.

use vstd::prelude::*;

verus! {

use vstd::string::StrSliceExecFns;
use crate::game::str_eq;
use crate::grouping::lemma_filter_push;

/// Index of the first key equal to `k`, or -1 when there is none.
pub open spec fn find_key(keys: Seq<Seq<char>>, k: Seq<char>) -> int
    decreases keys.len(),
{
    if keys.len() == 0 {
        -1
    } else if keys[0] == k {
        0
    } else if find_key(keys.drop_first(), k) < 0 {
        -1
    } else {
        find_key(keys.drop_first(), k) + 1
    }
}

proof fn lemma_find_key_at(keys: Seq<Seq<char>>, k: Seq<char>, j: int)
    requires
        0 <= j < keys.len(),
        keys[j] == k,
        forall|w: int| 0 <= w < j ==> keys[w] != k,
    ensures
        find_key(keys, k) == j,
    decreases j,
{
    if j > 0 {
        assert(keys.drop_first()[j - 1] == k);
        assert(forall|w: int| 0 <= w < j - 1 ==> keys.drop_first()[w] != k);
        lemma_find_key_at(keys.drop_first(), k, j - 1);
    }
}

proof fn lemma_find_key_none(keys: Seq<Seq<char>>, k: Seq<char>)
    requires
        forall|w: int| 0 <= w < keys.len() ==> keys[w] != k,
    ensures
        find_key(keys, k) < 0,
    decreases keys.len(),
{
    if keys.len() > 0 {
        assert(forall|w: int| 0 <= w < keys.len() - 1 ==> keys.drop_first()[w] != k);
        lemma_find_key_none(keys.drop_first(), k);
    }
}

/// `needle` occurs in `hay` as a contiguous run of characters.
pub open spec fn contains_seq(hay: Seq<char>, needle: Seq<char>) -> bool {
    exists|i: int|
        0 <= i && i + needle.len() <= hay.len() && #[trigger] hay.subrange(i, i + needle.len())
            == needle
}

/// Picks the keys holding the fragment.
pub open spec fn fragment_pred(partial: Seq<char>) -> spec_fn(Seq<char>) -> bool {
    |k: Seq<char>| contains_seq(k, partial)
}

/// Whether `needle` occurs in `hay` as a contiguous substring, by
/// characters.
pub fn str_contains(hay: &str, needle: &str) -> (r: bool)
    ensures
        r == contains_seq(hay@, needle@),
{
    let lh = hay.unicode_len();
    let ln = needle.unicode_len();
    if ln > lh {
        return false;
    }
    let mut i: usize = 0;
    while i <= lh - ln
        invariant
            lh == hay@.len(),
            ln == needle@.len(),
            ln <= lh,
            i <= lh,
            forall|w: int|
                0 <= w < i ==> #[trigger] hay@.subrange(w, w + needle@.len()) != needle@,
        decreases lh - i,
    {
        let mut k: usize = 0;
        while k < ln && hay.get_char(i + k) == needle.get_char(k)
            invariant
                lh == hay@.len(),
                ln == needle@.len(),
                i + ln <= lh,
                k <= ln,
                forall|t: int| 0 <= t < k ==> hay@[i + t] == needle@[t],
            decreases ln - k,
        {
            k = k + 1;
        }
        if k == ln {
            proof {
                assert(hay@.subrange(i as int, i + needle@.len()) =~= needle@);
            }
            return true;
        }
        proof {
            assert(hay@.subrange(i as int, i + needle@.len())[k as int] == hay@[i + k]);
            assert(hay@[i + k] != needle@[k as int]);
            assert(hay@.subrange(i as int, i + needle@.len()) != needle@);
        }
        i = i + 1;
    }
    proof {
        assert(!contains_seq(hay@, needle@)) by {
            if contains_seq(hay@, needle@) {
                let w = choose|w: int|
                    0 <= w && w + needle@.len() <= hay@.len() && #[trigger] hay@.subrange(
                        w,
                        w + needle@.len(),
                    ) == needle@;
                assert(w < i);
            }
        }
    }
    false
}

/// The in-memory cache: a string-keyed store with unique keys.
pub struct Redis {
    keys: Vec<String>,
    vals: Vec<String>,
}

impl Redis {
    /// The cached keys, in insertion order.
    pub closed spec fn spec_keys(self) -> Seq<Seq<char>> {
        self.keys@.map_values(|s: String| s@)
    }

    /// The cached values, aligned with `spec_keys`.
    pub closed spec fn spec_vals(self) -> Seq<Seq<char>> {
        self.vals@.map_values(|s: String| s@)
    }

    /// One value per key, keys unique.
    pub closed spec fn wf(self) -> bool {
        &&& self.keys@.len() == self.vals@.len()
        &&& forall|i: int, j: int|
            0 <= i < j < self.keys@.len() ==> (#[trigger] self.keys@[i])@ != (
            #[trigger] self.keys@[j])@
    }

    /// An empty cache.
    pub fn new() -> (r: Redis)
        ensures
            r.wf(),
            r.spec_keys().len() == 0,
            r.spec_vals().len() == 0,
    {
        Redis { keys: Vec::new(), vals: Vec::new() }
    }

    /// Find the position of a key.
    fn position(&self, key: &str) -> (r: Option<usize>)
        requires
            self.wf(),
        ensures
            match r {
                Option::Some(j) => j as int == find_key(self.spec_keys(), key@) && j
                    < self.spec_keys().len(),
                Option::None => find_key(self.spec_keys(), key@) < 0,
            },
    {
        let mut j: usize = 0;
        while j < self.keys.len() && !str_eq(self.keys[j].as_str(), key)
            invariant
                j <= self.keys@.len(),
                forall|w: int| 0 <= w < j ==> (#[trigger] self.keys@[w])@ != key@,
            decreases self.keys@.len() - j,
        {
            j = j + 1;
        }
        if j < self.keys.len() {
            proof {
                assert(self.spec_keys()[j as int] == key@);
                assert(forall|w: int| 0 <= w < j ==> self.spec_keys()[w] != key@);
                lemma_find_key_at(self.spec_keys(), key@, j as int);
            }
            Some(j)
        } else {
            proof {
                assert(forall|w: int|
                    0 <= w < self.spec_keys().len() ==> self.spec_keys()[w] != key@);
                lemma_find_key_none(self.spec_keys(), key@);
            }
            None
        }
    }

    /// Store a value under a key: overwrite the key's value when the
    /// key is held, append the pair otherwise.
    pub fn set_data(&mut self, key: &str, data: &str)
        requires
            old(self).wf(),
        ensures
            final(self).wf(),
            ({
                let i = find_key(old(self).spec_keys(), key@);
                if i >= 0 {
                    final(self).spec_keys() == old(self).spec_keys() && final(self).spec_vals()
                        == old(self).spec_vals().update(i, data@)
                } else {
                    final(self).spec_keys() == old(self).spec_keys().push(key@)
                        && final(self).spec_vals() == old(self).spec_vals().push(data@)
                }
            }),
    {
        match self.position(key) {
            Option::Some(j) => {
                self.vals.set(j, data.to_owned());
                proof {
                    assert(self.spec_keys() =~= old(self).spec_keys());
                    assert(self.spec_vals() =~= old(self).spec_vals().update(
                        find_key(old(self).spec_keys(), key@),
                        data@,
                    ));
                }
            },
            Option::None => {
                self.keys.push(key.to_owned());
                self.vals.push(data.to_owned());
                proof {
                    assert(self.spec_keys() =~= old(self).spec_keys().push(key@));
                    assert(self.spec_vals() =~= old(self).spec_vals().push(data@));
                    assert forall|i: int, j: int|
                        0 <= i < j < self.keys@.len() implies (#[trigger] self.keys@[i])@ != (
                    #[trigger] self.keys@[j])@ by {
                        if j == self.keys@.len() - 1 {
                            assert(self.spec_keys()[i] == old(self).spec_keys()[i]);
                            assert(find_key(old(self).spec_keys(), key@) < 0);
                            if old(self).spec_keys()[i] == key@ {
                                lemma_find_key_at_contains(old(self).spec_keys(), key@, i);
                            }
                        }
                    }
                }
            },
        }
    }

    /// The value stored under a key, if any.
    pub fn get_data(&self, key: &str) -> (r: Option<String>)
        requires
            self.wf(),
        ensures
            ({
                let i = find_key(self.spec_keys(), key@);
                match r {
                    Option::Some(v) => i >= 0 && v@ == self.spec_vals()[i],
                    Option::None => i < 0,
                }
            }),
    {
        match self.position(key) {
            Option::Some(j) => Some(self.vals[j].clone()),
            Option::None => None,
        }
    }

    /// Whether a key is held.
    pub fn has_data(&self, key: &str) -> (r: bool)
        requires
            self.wf(),
        ensures
            r == (find_key(self.spec_keys(), key@) >= 0),
    {
        match self.position(key) {
            Option::Some(_) => true,
            Option::None => false,
        }
    }

    /// Drop a key and its value; a key that is not held is left alone.
    /// Returns whether the key was held.
    pub fn invalidate(&mut self, key: &str) -> (r: bool)
        requires
            old(self).wf(),
        ensures
            final(self).wf(),
            r == (find_key(old(self).spec_keys(), key@) >= 0),
            ({
                let i = find_key(old(self).spec_keys(), key@);
                if i >= 0 {
                    final(self).spec_keys() == old(self).spec_keys().remove(i)
                        && final(self).spec_vals() == old(self).spec_vals().remove(i)
                } else {
                    final(self).spec_keys() == old(self).spec_keys() && final(self).spec_vals()
                        == old(self).spec_vals()
                }
            }),
    {
        match self.position(key) {
            Option::Some(j) => {
                self.keys.remove(j);
                self.vals.remove(j);
                proof {
                    let i = find_key(old(self).spec_keys(), key@);
                    assert(self.spec_keys() =~= old(self).spec_keys().remove(i));
                    assert(self.spec_vals() =~= old(self).spec_vals().remove(i));
                    assert forall|a: int, b: int|
                        0 <= a < b < self.keys@.len() implies (#[trigger] self.keys@[a])@ != (
                    #[trigger] self.keys@[b])@ by {
                        let aa = if a < i {
                            a
                        } else {
                            a + 1
                        };
                        let bb = if b < i {
                            b
                        } else {
                            b + 1
                        };
                        assert(self.keys@[a] == old(self).keys@[aa]);
                        assert(self.keys@[b] == old(self).keys@[bb]);
                    }
                }
                true
            },
            Option::None => false,
        }
    }

    /// Every held key holding the fragment as a substring, in insertion
    /// order.
    pub fn keys(&self, partial: &str) -> (r: Vec<String>)
        requires
            self.wf(),
        ensures
            r@.map_values(|s: String| s@) == self.spec_keys().filter(fragment_pred(partial@)),
    {
        let mut r: Vec<String> = Vec::new();
        let mut j: usize = 0;
        proof {
            assert(self.spec_keys().subrange(0, 0) =~= Seq::<Seq<char>>::empty());
            assert(r@.map_values(|s: String| s@) =~= self.spec_keys().subrange(0, 0).filter(
                fragment_pred(partial@),
            ));
            reveal(Seq::filter);
        }
        while j < self.keys.len()
            invariant
                j <= self.keys@.len(),
                r@.map_values(|s: String| s@) == self.spec_keys().subrange(0, j as int).filter(
                    fragment_pred(partial@),
                ),
            decreases self.keys@.len() - j,
        {
            proof {
                assert(self.spec_keys().subrange(0, j + 1) =~= self.spec_keys().subrange(
                    0,
                    j as int,
                ).push(self.spec_keys()[j as int]));
                lemma_filter_push(
                    self.spec_keys().subrange(0, j as int),
                    fragment_pred(partial@),
                    self.spec_keys()[j as int],
                );
            }
            if str_contains(self.keys[j].as_str(), partial) {
                r.push(self.keys[j].clone());
                proof {
                    assert(r@.map_values(|s: String| s@) =~= self.spec_keys().subrange(
                        0,
                        j + 1,
                    ).filter(fragment_pred(partial@)));
                }
            } else {
                proof {
                    assert(r@.map_values(|s: String| s@) =~= self.spec_keys().subrange(
                        0,
                        j + 1,
                    ).filter(fragment_pred(partial@)));
                }
            }
            j = j + 1;
        }
        proof {
            assert(self.spec_keys().subrange(0, self.spec_keys().len() as int) =~= self.spec_keys());
        }
        r
    }
}

/// A key that occurs in the sequence is found at or before its index.
proof fn lemma_find_key_at_contains(keys: Seq<Seq<char>>, k: Seq<char>, i: int)
    requires
        0 <= i < keys.len(),
        keys[i] == k,
    ensures
        find_key(keys, k) >= 0,
    decreases keys.len(),
{
    if keys[0] != k {
        assert(i > 0);
        assert(keys.drop_first()[i - 1] == k);
        lemma_find_key_at_contains(keys.drop_first(), k, i - 1);
    }
}

} // verus!
