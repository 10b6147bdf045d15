//! The filename table of a U8 archive: the tree of files and folders,
//! and its encoding.

use vstd::prelude::*;
use vstd::string::StringSliceAdditionalSpecFns;
use vstd::utf8::encode_utf8;

use crate::region::{lower_of, lowercase, split_on, split_text};
use crate::util::{push_char, push_str, spaces_before, write_right_aligned_str};

verus! {

/// A file of a U8 filename table.
#[derive(Copy, Clone, PartialEq, Eq, Structural, Debug)]
pub struct U8FileNode {
    /// Where the file's data starts, counted from the start of the data
    /// section (not of the archive).
    pub offset: u32,
    /// The length of the file's data.
    pub size: u32,
}

/// A node of a U8 filename table: a file, or a folder of named nodes.
#[derive(Debug, PartialEq, Eq)]
pub enum U8Node {
    File(U8FileNode),
    Folder(U8FolderNode),
}

/// The children of a folder, each under a name. Two names that are equal
/// without regard to case name the same child.
#[derive(Debug, PartialEq, Eq)]
pub struct U8FolderNode {
    entries: Vec<(String, U8Node)>,
}

/// `a` comes strictly before `b` in byte order.
pub open spec fn bytes_lt(a: Seq<u8>, b: Seq<u8>) -> bool
    decreases a.len(),
{
    if a.len() == 0 {
        b.len() > 0
    } else if b.len() == 0 {
        false
    } else if a[0] != b[0] {
        a[0] < b[0]
    } else {
        bytes_lt(a.drop_first(), b.drop_first())
    }
}

/// Byte order is a strict total order.
pub proof fn lemma_bytes_lt_order(a: Seq<u8>, b: Seq<u8>, c: Seq<u8>)
    ensures
        !bytes_lt(a, a),
        bytes_lt(a, b) ==> !bytes_lt(b, a),
        a != b ==> bytes_lt(a, b) || bytes_lt(b, a),
        bytes_lt(a, b) && bytes_lt(b, c) ==> bytes_lt(a, c),
    decreases a.len(),
{
    lemma_bytes_lt_total(a, b);
    if a.len() > 0 && b.len() > 0 && c.len() > 0 {
        lemma_bytes_lt_order(a.drop_first(), b.drop_first(), c.drop_first());
    } else if a.len() > 0 && b.len() > 0 {
        lemma_bytes_lt_order(a.drop_first(), b.drop_first(), b.drop_first());
    } else if a.len() > 0 {
        lemma_bytes_lt_order(a.drop_first(), a.drop_first(), a.drop_first());
    }
}

/// Two different byte strings are ordered one way or the other.
proof fn lemma_bytes_lt_total(a: Seq<u8>, b: Seq<u8>)
    ensures
        a != b ==> bytes_lt(a, b) || bytes_lt(b, a),
    decreases a.len(),
{
    if a.len() == 0 && b.len() == 0 {
        assert(a =~= b);
    }
    if a.len() > 0 && b.len() > 0 && a[0] == b[0] {
        lemma_bytes_lt_total(a.drop_first(), b.drop_first());
        if a.drop_first() == b.drop_first() {
            assert(a.drop_first().len() == b.drop_first().len());
            assert(a.len() == b.len());
            assert forall|i: int| 0 <= i < a.len() implies a[i] == b[i] by {
                if i > 0 {
                    assert(a[i] == a.drop_first()[i - 1]);
                    assert(b[i] == b.drop_first()[i - 1]);
                }
            }
            assert(a =~= b);
        }
    }
}

/// Two names have the same order key exactly when they are equal in lower case.
pub proof fn lemma_order_key_injective(x: Seq<char>, y: Seq<char>)
    ensures
        (order_key(x) == order_key(y)) <==> (lower_of(x) == lower_of(y)),
{
    vstd::utf8::encode_utf8_decode_utf8(lower_of(x));
    vstd::utf8::encode_utf8_decode_utf8(lower_of(y));
}

/// The key by which folder entries are ordered: the bytes of the name in
/// lower case.
pub open spec fn order_key(name: Seq<char>) -> Seq<u8> {
    encode_utf8(lower_of(name))
}

/// Entries are in strictly increasing order of their keys.
pub open spec fn entries_sorted(e: Seq<(String, U8Node)>) -> bool {
    forall|i: int, j: int|
        0 <= i < j < e.len() ==> bytes_lt(
            #[trigger] order_key(e[i].0@),
            #[trigger] order_key(e[j].0@),
        )
}

/// Entry `i` is the first whose name is `key` in lower case.
pub open spec fn first_match(e: Seq<(String, U8Node)>, key: Seq<char>, i: int) -> bool {
    &&& 0 <= i < e.len()
    &&& lower_of(e[i].0@) == key
    &&& forall|j: int| 0 <= j < i ==> lower_of(#[trigger] e[j].0@) != key
}

/// The first entry whose name is `key` in lower case.
pub open spec fn lookup(e: Seq<(String, U8Node)>, key: Seq<char>) -> Option<(String, U8Node)> {
    if exists|i: int| first_match(e, key, i) {
        Some(e[choose|i: int| first_match(e, key, i)])
    } else {
        None
    }
}

/// The node of the first entry whose name is `key` in lower case.
pub open spec fn lookup_node(e: Seq<(String, U8Node)>, key: Seq<char>) -> Option<U8Node> {
    match lookup(e, key) {
        Some(p) => Some(p.1),
        None => None,
    }
}

/// An entry as its name's characters and its node.
pub open spec fn entry_view(x: (String, U8Node)) -> (Seq<char>, U8Node) {
    (x.0@, x.1)
}

/// The entries as a map from lower-case names to the first entry with
/// each.
pub open spec fn entries_map(e: Seq<(String, U8Node)>) -> Map<Seq<char>, (Seq<char>, U8Node)> {
    Map::new(|k: Seq<char>| has_key(e, k), |k: Seq<char>| entry_view(lookup(e, k)->0))
}

/// The map of entries after a change that set `key` to `v` (or took it
/// out) and left every other key alone.
pub proof fn lemma_entries_map_update(
    before: Seq<(String, U8Node)>,
    after: Seq<(String, U8Node)>,
    key: Seq<char>,
    v: Option<(String, U8Node)>,
)
    requires
        lookup(after, key) == v,
        forall|k: Seq<char>| k != key ==> #[trigger] lookup(after, k) == lookup(before, k),
    ensures
        v matches Some(x) ==> entries_map(after) == entries_map(before).insert(key, (x.0@, x.1)),
        v is None ==> entries_map(after) == entries_map(before).remove(key),
{
    assert forall|k: Seq<char>| #[trigger] has_key(after, k) <==> lookup(after, k) is Some by {
        lemma_first_match_exists(after, k);
    }
    assert forall|k: Seq<char>| #[trigger] has_key(before, k) <==> lookup(before, k) is Some by {
        lemma_first_match_exists(before, k);
    }
    if let Some(x) = v {
        assert(entries_map(after) =~= entries_map(before).insert(key, (x.0@, x.1)));
    } else {
        assert(entries_map(after) =~= entries_map(before).remove(key));
    }
}

/// Some entry has the name `key` in lower case.
pub open spec fn has_key(e: Seq<(String, U8Node)>, key: Seq<char>) -> bool {
    exists|i: int| 0 <= i < e.len() && lower_of(#[trigger] e[i].0@) == key
}

/// Where some entry has a key, a first one has it.
pub proof fn lemma_first_match_exists(e: Seq<(String, U8Node)>, key: Seq<char>)
    ensures
        has_key(e, key) <==> exists|i: int| first_match(e, key, i),
        has_key(e, key) <==> lookup(e, key) is Some,
    decreases e.len(),
{
    if has_key(e, key) {
        let i = choose|i: int| 0 <= i < e.len() && lower_of(#[trigger] e[i].0@) == key;
        if lower_of(e[0].0@) == key {
            assert(first_match(e, key, 0));
        } else {
            let t = e.drop_first();
            assert(lower_of(t[i - 1].0@) == key);
            lemma_first_match_exists(t, key);
            let k = choose|k: int| first_match(t, key, k);
            assert forall|j: int| 0 <= j < k + 1 implies lower_of(#[trigger] e[j].0@) != key by {
                if j > 0 {
                    assert(e[j] == t[j - 1]);
                }
            }
            assert(first_match(e, key, k + 1));
        }
    }
}

/// The first entry whose name is `key` in lower case is the one at `i`.
pub proof fn lemma_lookup_at(e: Seq<(String, U8Node)>, key: Seq<char>, i: int)
    requires
        first_match(e, key, i),
    ensures
        lookup(e, key) == Some(e[i]),
{
    let k = choose|k: int| first_match(e, key, k);
    assert(k == i);
}

/// Whether `name` is `key` in lower case, for the caller that has `key`.
fn name_has_key(name: &String, key: &String) -> (r: bool)
    ensures
        r == (lower_of(name@) == key@),
{
    let lowered = lowercase(name.as_str());
    lowered == *key
}

/// Whether the bytes `a` come before the bytes `b`.
fn bytes_before(a: &[u8], b: &[u8]) -> (r: bool)
    ensures
        r == bytes_lt(a@, b@),
{
    let mut i: usize = 0;
    assert(a@.subrange(0, a@.len() as int) =~= a@);
    assert(b@.subrange(0, b@.len() as int) =~= b@);
    while i < a.len() && i < b.len()
        invariant
            i <= a@.len(),
            i <= b@.len(),
            bytes_lt(a@, b@) == bytes_lt(a@.subrange(i as int, a@.len() as int), b@.subrange(i as int, b@.len() as int)),
        decreases a@.len() - i,
    {
        if a[i] != b[i] {
            return a[i] < b[i];
        }
        assert(a@.subrange(i as int, a@.len() as int).drop_first() =~= a@.subrange(i + 1, a@.len() as int));
        assert(b@.subrange(i as int, b@.len() as int).drop_first() =~= b@.subrange(i + 1, b@.len() as int));
        i = i + 1;
    }
    i == a.len() && i < b.len()
}

impl U8FolderNode {
    /// The entries, in the order in which they are visited.
    pub closed spec fn entries(&self) -> Seq<(String, U8Node)> {
        self.entries@
    }

    /// An empty folder.
    pub fn new() -> (r: Self)
        ensures
            r.entries() == Seq::<(String, U8Node)>::empty(),
            r.wf(),
    {
        U8FolderNode { entries: Vec::new() }
    }

    /// The number of entries.
    pub fn len(&self) -> (r: usize)
        ensures
            r == self.entries().len(),
    {
        self.entries.len()
    }

    /// Whether the folder is empty.
    pub fn is_empty(&self) -> (r: bool)
        ensures
            r == (self.entries().len() == 0),
    {
        self.entries.len() == 0
    }

    /// The name and node of entry `i`.
    pub fn entry(&self, i: usize) -> (r: (&String, &U8Node))
        requires
            i < self.entries().len(),
        ensures
            *r.0 == self.entries()[i as int].0,
            *r.1 == self.entries()[i as int].1,
    {
        let e = &self.entries[i];
        (&e.0, &e.1)
    }

    /// The index of the first entry named `name` without regard to case,
    /// or the number of entries where there is none.
    fn find(&self, name: &str) -> (r: usize)
        ensures
            r <= self.entries().len(),
            r < self.entries().len() ==> first_match(self.entries(), lower_of(name@), r as int),
            r == self.entries().len() ==> !has_key(self.entries(), lower_of(name@)),
    {
        let key = lowercase(name);
        let mut i: usize = 0;
        while i < self.entries.len()
            invariant
                i <= self.entries@.len(),
                key@ == lower_of(name@),
                forall|j: int| 0 <= j < i ==> lower_of(#[trigger] self.entries@[j].0@) != key@,
            decreases self.entries@.len() - i,
        {
            if name_has_key(&self.entries[i].0, &key) {
                return i;
            }
            i = i + 1;
        }
        i
    }

    /// The child named `name`, without regard to case.
    pub fn get(&self, name: &str) -> (r: Option<&U8Node>)
        ensures
            r matches Some(c) ==> lookup_node(self.entries(), lower_of(name@)) == Some(*c),
            r is None <==> lookup_node(self.entries(), lower_of(name@)) is None,
    {
        let i = self.find(name);
        proof {
            lemma_first_match_exists(self.entries(), lower_of(name@));
        }
        if i < self.entries.len() {
            proof {
                lemma_lookup_at(self.entries(), lower_of(name@), i as int);
            }
            Some(&self.entries[i].1)
        } else {
            None
        }
    }

    /// Whether a child is named `name`, without regard to case.
    pub fn contains_key(&self, name: &str) -> (r: bool)
        ensures
            r == has_key(self.entries(), lower_of(name@)),
    {
        self.find(name) < self.entries.len()
    }

    /// Put `node` under `name`, in place of the child that has that name
    /// without regard to case, if any, which is returned. Entries stay in
    /// order of their lower-case names.
    pub fn insert(&mut self, name: String, node: U8Node) -> (r: Option<U8Node>)
        ensures
            lookup(final(self).entries(), lower_of(name@)) == Some((name, node)),
            forall|k: Seq<char>|
                k != lower_of(name@) ==> #[trigger] lookup(final(self).entries(), k) == lookup(
                    old(self).entries(),
                    k,
                ),
            forall|k: Seq<char>|
                k != lower_of(name@) ==> #[trigger] has_key(final(self).entries(), k) == has_key(
                    old(self).entries(),
                    k,
                ),
            has_key(final(self).entries(), lower_of(name@)),
            r == lookup_node(old(self).entries(), lower_of(name@)),
            entries_sorted(old(self).entries()) ==> entries_sorted(final(self).entries()),
            entries_map(final(self).entries()) == entries_map(old(self).entries()).insert(
                lower_of(name@),
                (name@, node),
            ),
    {
        let ghost k = lower_of(name@);
        let ghost e0 = self.entries@;
        let r = self.insert_entry(name, node);
        proof {
            lemma_entries_map_update(e0, self.entries@, k, Some((name, node)));
        }
        r
    }

    /// `insert`, without the map view.
    fn insert_entry(&mut self, name: String, node: U8Node) -> (r: Option<U8Node>)
        ensures
            lookup(final(self).entries(), lower_of(name@)) == Some((name, node)),
            forall|k: Seq<char>|
                k != lower_of(name@) ==> #[trigger] lookup(final(self).entries(), k) == lookup(
                    old(self).entries(),
                    k,
                ),
            forall|k: Seq<char>|
                k != lower_of(name@) ==> #[trigger] has_key(final(self).entries(), k) == has_key(
                    old(self).entries(),
                    k,
                ),
            has_key(final(self).entries(), lower_of(name@)),
            r == lookup_node(old(self).entries(), lower_of(name@)),
            entries_sorted(old(self).entries()) ==> entries_sorted(final(self).entries()),
    {
        let ghost k = lower_of(name@);
        let j = self.find(name.as_str());
        if j < self.entries.len() {
            let ghost before = self.entries@;
            proof {
                lemma_lookup_at(before, k, j as int);
            }
            let old_entry = self.entries.remove(j);
            self.entries.insert(j, (name, node));
            proof {
                let e = self.entries@;
                assert(e =~= before.update(j as int, (name, node)));
                assert(first_match(e, k, j as int));
                lemma_lookup_at(e, k, j as int);
                assert forall|k2: Seq<char>| k2 != k implies #[trigger] lookup(e, k2) == lookup(before, k2) by {
                    lemma_lookup_same_elsewhere(before, e, k2, j as int);
                }
                assert forall|k2: Seq<char>| k2 != k implies #[trigger] has_key(e, k2) == has_key(before, k2) by {
                    lemma_lookup_same_elsewhere(before, e, k2, j as int);
                }
                assert(has_key(e, k)) by {
                    assert(lower_of(e[j as int].0@) == k);
                }
                if entries_sorted(before) {
                    lemma_order_key_injective(name@, before[j as int].0@);
                    assert forall|a: int, b: int| 0 <= a < b < e.len() implies bytes_lt(
                        #[trigger] order_key(e[a].0@),
                        #[trigger] order_key(e[b].0@),
                    ) by {
                        assert(order_key(e[j as int].0@) == order_key(before[j as int].0@));
                        assert(bytes_lt(order_key(before[a].0@), order_key(before[b].0@)));
                    }
                }
            }
            return Some(old_entry.1);
        }
        let key = lowercase(name.as_str());
        let ghost old_e = self.entries@;
        let mut i: usize = 0;
        while i < self.entries.len() && !self.key_precedes(&key, i)
            invariant
                i <= self.entries@.len(),
                self.entries@ == old_e,
                key@ == k,
                k == lower_of(name@),
                !has_key(old_e, k),
                forall|m: int| 0 <= m < i ==> bytes_lt(#[trigger] order_key(old_e[m].0@), order_key(name@)),
            decreases self.entries@.len() - i,
        {
            proof {
                assert(lower_of(old_e[i as int].0@) != k);
                lemma_order_key_injective(name@, old_e[i as int].0@);
                lemma_bytes_lt_order(order_key(name@), order_key(old_e[i as int].0@), order_key(name@));
            }
            i = i + 1;
        }
        self.insert_at(i, name, node);
        None
    }

    /// Whether `key` comes before the lower-case name of entry `i`.
    fn key_precedes(&self, key: &String, i: usize) -> (r: bool)
        requires
            i < self.entries().len(),
        ensures
            r == bytes_lt(encode_utf8(key@), order_key(self.entries()[i as int].0@)),
    {
        let lowered = lowercase(self.entries[i].0.as_str());
        bytes_before(key.as_str().as_bytes(), lowered.as_str().as_bytes())
    }

    /// Insert a new entry at `i`, where no entry has its key, and every
    /// entry before `i` and none after has a smaller key.
    fn insert_at(&mut self, i: usize, name: String, node: U8Node)
        requires
            i <= old(self).entries().len(),
            forall|j: int| 0 <= j < old(self).entries().len() ==> lower_of(#[trigger] old(self).entries()[j].0@) != lower_of(name@),
            forall|j: int| 0 <= j < i ==> bytes_lt(#[trigger] order_key(old(self).entries()[j].0@), order_key(name@)),
            i < old(self).entries().len() ==> bytes_lt(order_key(name@), order_key(old(self).entries()[i as int].0@)),
        ensures
            lookup(final(self).entries(), lower_of(name@)) == Some((name, node)),
            forall|k: Seq<char>|
                k != lower_of(name@) ==> #[trigger] lookup(final(self).entries(), k) == lookup(
                    old(self).entries(),
                    k,
                ),
            forall|k: Seq<char>|
                k != lower_of(name@) ==> #[trigger] has_key(final(self).entries(), k) == has_key(
                    old(self).entries(),
                    k,
                ),
            has_key(final(self).entries(), lower_of(name@)),
            !has_key(old(self).entries(), lower_of(name@)),
            lookup(old(self).entries(), lower_of(name@)) is None,
            entries_sorted(old(self).entries()) ==> entries_sorted(final(self).entries()),
    {
        let ghost before = self.entries@;
        let ghost k = lower_of(name@);
        self.entries.insert(i, (name, node));
        proof {
            let e = self.entries@;
            assert(first_match(e, k, i as int)) by {
                assert forall|j: int| 0 <= j < i implies lower_of(#[trigger] e[j].0@) != k by {
                    assert(e[j] == before[j]);
                }
            }
            lemma_lookup_at(e, k, i as int);
            lemma_first_match_exists(before, k);
            assert(!has_key(before, k));
            assert forall|k2: Seq<char>| k2 != k implies #[trigger] lookup(e, k2) == lookup(before, k2) by {
                lemma_lookup_after_insert(before, e, k2, i as int);
            }
            assert forall|k2: Seq<char>| k2 != k implies #[trigger] has_key(e, k2) == has_key(before, k2) by {
                lemma_lookup_after_insert(before, e, k2, i as int);
            }
            assert(has_key(e, k)) by {
                assert(lower_of(e[i as int].0@) == k);
            }
            if entries_sorted(before) {
                assert forall|a: int, b: int| 0 <= a < b < e.len() implies bytes_lt(
                    #[trigger] order_key(e[a].0@),
                    #[trigger] order_key(e[b].0@),
                ) by {
                    if b < i {
                        assert(e[a] == before[a] && e[b] == before[b]);
                    } else if b == i {
                        assert(e[a] == before[a]);
                    } else if a == i {
                        assert(e[b] == before[b - 1]);
                        if b - 1 > i {
                            assert(bytes_lt(order_key(before[i as int].0@), order_key(before[b - 1].0@)));
                            lemma_bytes_lt_order(order_key(name@), order_key(before[i as int].0@), order_key(before[b - 1].0@));
                        }
                    } else if a < i {
                        assert(e[a] == before[a] && e[b] == before[b - 1]);
                    } else {
                        assert(e[a] == before[a - 1] && e[b] == before[b - 1]);
                    }
                }
            }
        }
    }

    /// Take out every child named `name` without regard to case, and
    /// return the first of them.
    pub fn remove(&mut self, name: &str) -> (r: Option<U8Node>)
        ensures
            !has_key(final(self).entries(), lower_of(name@)),
            lookup(final(self).entries(), lower_of(name@)) is None,
            forall|k: Seq<char>|
                k != lower_of(name@) ==> #[trigger] lookup(final(self).entries(), k) == lookup(
                    old(self).entries(),
                    k,
                ),
            forall|k: Seq<char>|
                k != lower_of(name@) ==> #[trigger] has_key(final(self).entries(), k) == has_key(
                    old(self).entries(),
                    k,
                ),
            r == lookup_node(old(self).entries(), lower_of(name@)),
            entries_sorted(old(self).entries()) ==> entries_sorted(final(self).entries()),
            entries_map(final(self).entries()) == entries_map(old(self).entries()).remove(
                lower_of(name@),
            ),
    {
        let ghost e0 = self.entries@;
        let r = self.remove_all(name);
        proof {
            lemma_first_match_exists(self.entries@, lower_of(name@));
            lemma_entries_map_update(e0, self.entries@, lower_of(name@), None);
        }
        r
    }

    /// `remove`, without the map view.
    fn remove_all(&mut self, name: &str) -> (r: Option<U8Node>)
        ensures
            !has_key(final(self).entries(), lower_of(name@)),
            forall|k: Seq<char>|
                k != lower_of(name@) ==> #[trigger] lookup(final(self).entries(), k) == lookup(
                    old(self).entries(),
                    k,
                ),
            forall|k: Seq<char>|
                k != lower_of(name@) ==> #[trigger] has_key(final(self).entries(), k) == has_key(
                    old(self).entries(),
                    k,
                ),
            r == lookup_node(old(self).entries(), lower_of(name@)),
            entries_sorted(old(self).entries()) ==> entries_sorted(final(self).entries()),
    {
        let ghost k = lower_of(name@);
        let ghost old_e = self.entries@;
        let mut removed: Option<U8Node> = None;
        let mut first = true;
        loop
            invariant
                k == lower_of(name@),
                old_e == old(self).entries@,
                forall|k2: Seq<char>|
                    k2 != k ==> #[trigger] lookup(self.entries@, k2) == lookup(old_e, k2),
                forall|k2: Seq<char>|
                    k2 != k ==> #[trigger] has_key(self.entries@, k2) == has_key(old_e, k2),
                first ==> self.entries@ == old_e && removed is None,
                !first ==> removed == lookup_node(old_e, k),
                entries_sorted(old_e) ==> entries_sorted(self.entries@),
            decreases self.entries@.len(),
        {
            let i = self.find(name);
            if i >= self.entries.len() {
                proof {
                    lemma_first_match_exists(self.entries@, k);
                    if first {
                        lemma_first_match_exists(old_e, k);
                    }
                    assert forall|k2: Seq<char>| k2 != k implies #[trigger] lookup(self.entries(), k2) == lookup(old_e, k2) by {}
                    assert forall|k2: Seq<char>| k2 != k implies #[trigger] has_key(self.entries(), k2) == has_key(old_e, k2) by {}
                }
                return removed;
            }
            let ghost before = self.entries@;
            let e = self.entries.remove(i);
            proof {
                let after = self.entries@;
                lemma_lookup_at(before, k, i as int);
                assert forall|k2: Seq<char>| k2 != k implies #[trigger] lookup(after, k2) == lookup(before, k2) by {
                    lemma_lookup_after_insert(after, before, k2, i as int);
                }
                assert forall|k2: Seq<char>| k2 != k implies #[trigger] has_key(after, k2) == has_key(before, k2) by {
                    lemma_lookup_after_insert(after, before, k2, i as int);
                }
                if entries_sorted(before) {
                    assert forall|a: int, b: int| 0 <= a < b < after.len() implies bytes_lt(
                        #[trigger] order_key(after[a].0@),
                        #[trigger] order_key(after[b].0@),
                    ) by {
                        let a0 = if a < i { a } else { a + 1 };
                        let b0 = if b < i { b } else { b + 1 };
                        assert(after[a] == before[a0] && after[b] == before[b0]);
                    }
                }
            }
            if first {
                removed = Some(e.1);
                first = false;
            }
        }
    }
}

/// The child of `node` named `name` without regard to case.
pub open spec fn child_of(node: U8Node, name: Seq<char>) -> Option<U8Node> {
    match node {
        U8Node::File(_) => None,
        U8Node::Folder(f) => lookup_node(f.entries(), lower_of(name)),
    }
}

/// Names that are equal without regard to case reach the same child.
pub proof fn lemma_lookup_ignores_case(node: U8Node, a: Seq<char>, b: Seq<char>)
    requires
        lower_of(a) == lower_of(b),
    ensures
        child_of(node, a) == child_of(node, b),
{
}

/// The node reached from `node` by following the names `comps`, where an
/// empty name stays in place.
pub open spec fn descend(node: U8Node, comps: Seq<Seq<char>>) -> Option<U8Node>
    decreases comps.len(),
{
    if comps.len() == 0 {
        Some(node)
    } else if comps[0].len() == 0 {
        descend(node, comps.drop_first())
    } else {
        match child_of(node, comps[0]) {
            Some(c) => descend(c, comps.drop_first()),
            None => None,
        }
    }
}

/// `result` is `node` with the node that `comps` reaches replaced by
/// `new_node`, and everything else as it was.
pub open spec fn replaced_at(
    node: U8Node,
    comps: Seq<Seq<char>>,
    new_node: U8Node,
    result: U8Node,
) -> bool
    decreases comps.len(),
{
    if comps.len() == 0 {
        result == new_node
    } else if comps[0].len() == 0 {
        replaced_at(node, comps.drop_first(), new_node, result)
    } else {
        match (node, result) {
            (U8Node::Folder(f), U8Node::Folder(g)) => exists|i: int|
                #![trigger first_match(f.entries(), lower_of(comps[0]), i)]
                {
                    &&& first_match(f.entries(), lower_of(comps[0]), i)
                    &&& g.entries().len() == f.entries().len()
                    &&& forall|j: int|
                        0 <= j < g.entries().len() && j != i ==> #[trigger] g.entries()[j]
                            == f.entries()[j]
                    &&& g.entries()[i].0 == f.entries()[i].0
                    &&& replaced_at(f.entries()[i].1, comps.drop_first(), new_node, g.entries()[i].1)
                },
            _ => false,
        }
    }
}

/// `result` is the folder `node` with its child named `name`, without
/// regard to case, replaced by `new_child`.
pub open spec fn child_replaced(node: U8Node, name: Seq<char>, new_child: U8Node, result: U8Node) -> bool {
    match (node, result) {
        (U8Node::Folder(f), U8Node::Folder(g)) => exists|i: int|
            #![trigger first_match(f.entries(), lower_of(name), i)]
            {
                &&& first_match(f.entries(), lower_of(name), i)
                &&& g.entries() == f.entries().update(i, (f.entries()[i].0, new_child))
            },
        _ => false,
    }
}

/// The path `path` split into the names of its parts.
pub open spec fn path_parts(path: Seq<char>) -> Seq<Seq<char>> {
    split_on(path, '/')
}

impl U8Node {
    /// Node-type value of a file.
    pub const FILE_TYPE: u8 = 0;

    /// Node-type value of a folder.
    pub const FOLDER_TYPE: u8 = 1;

    /// The node-type value of this node.
    pub fn type_value(&self) -> (r: u8)
        ensures
            r == (if self is File {
                0u8
            } else {
                1u8
            }),
    {
        match self {
            U8Node::File(_) => U8Node::FILE_TYPE,
            U8Node::Folder(_) => U8Node::FOLDER_TYPE,
        }
    }

    /// The file, if this is one.
    pub fn as_file(&self) -> (r: Option<&U8FileNode>)
        ensures
            match self {
                U8Node::File(f) => r == Some(f),
                U8Node::Folder(_) => r is None,
            },
    {
        match self {
            U8Node::File(f) => Some(f),
            U8Node::Folder(_) => None,
        }
    }

    /// The file, if this is one, to change.
    pub fn as_mut_file(&mut self) -> (r: Option<&mut U8FileNode>)
        ensures
            match *old(self) {
                U8Node::File(f) => r matches Some(m) && *m == f && *final(self) == U8Node::File(
                    *final(m),
                ),
                U8Node::Folder(_) => r is None && *final(self) == *old(self),
            },
    {
        match self {
            U8Node::File(f) => Some(f),
            U8Node::Folder(_) => None,
        }
    }

    /// The folder, if this is one.
    pub fn as_folder(&self) -> (r: Option<&U8FolderNode>)
        ensures
            match self {
                U8Node::File(_) => r is None,
                U8Node::Folder(f) => r == Some(f),
            },
    {
        match self {
            U8Node::File(_) => None,
            U8Node::Folder(f) => Some(f),
        }
    }

    /// The folder, if this is one, to change.
    pub fn as_mut_folder(&mut self) -> (r: Option<&mut U8FolderNode>)
        ensures
            match *old(self) {
                U8Node::File(_) => r is None && *final(self) == *old(self),
                U8Node::Folder(f) => r matches Some(m) && *m == f && *final(self) == U8Node::Folder(
                    *final(m),
                ),
            },
    {
        match self {
            U8Node::File(_) => None,
            U8Node::Folder(f) => Some(f),
        }
    }

    /// The children of a folder, in order; none for a file.
    pub fn iter(&self) -> (r: Vec<(&String, &U8Node)>)
        ensures
            match self {
                U8Node::File(_) => r@.len() == 0,
                U8Node::Folder(f) => r@.len() == f.entries().len() && forall|i: int|
                    0 <= i < r@.len() ==> *(#[trigger] r@[i]).0 == f.entries()[i].0 && *r@[i].1
                        == f.entries()[i].1,
            },
    {
        let mut r: Vec<(&String, &U8Node)> = Vec::new();
        match self {
            U8Node::File(_) => {},
            U8Node::Folder(f) => {
                let mut i: usize = 0;
                while i < f.len()
                    invariant
                        i <= f.entries().len(),
                        r@.len() == i,
                        forall|j: int|
                            0 <= j < i ==> *(#[trigger] r@[j]).0 == f.entries()[j].0 && *r@[j].1
                                == f.entries()[j].1,
                    decreases f.entries().len() - i,
                {
                    r.push(f.entry(i));
                    i = i + 1;
                }
            },
        }
        r
    }

    /// The child named `name`, without regard to case.
    pub fn child(&self, name: &str) -> (r: Option<&U8Node>)
        ensures
            r matches Some(c) ==> child_of(*self, name@) == Some(*c),
            r is None <==> child_of(*self, name@) is None,
    {
        match self {
            U8Node::File(_) => None,
            U8Node::Folder(f) => f.get(name),
        }
    }

    /// The child named `name`, without regard to case, to change.
    pub fn child_mut(&mut self, name: &str) -> (r: Option<&mut U8Node>)
        ensures
            r is None <==> child_of(*old(self), name@) is None,
            r is None ==> *final(self) == *old(self),
            r matches Some(m) ==> child_of(*old(self), name@) == Some(*m) && child_replaced(
                *old(self),
                name@,
                *final(m),
                *final(self),
            ),
    {
        match self {
            U8Node::File(_) => None,
            U8Node::Folder(f) => {
                let ghost f0 = *f;
                let r = f.get_mut(name);
                proof {
                    lemma_first_match_exists(f0.entries(), lower_of(name@));
                    if r is Some {
                        let i = choose|i: int| first_match(f0.entries(), lower_of(name@), i);
                        lemma_lookup_at(f0.entries(), lower_of(name@), i);
                    }
                }
                r
            },
        }
    }

    /// The node at `path`, whose parts are separated by '/', each read
    /// without regard to case; empty parts are skipped.
    pub fn get(&self, path: &str) -> (r: Option<&U8Node>)
        ensures
            r matches Some(c) ==> descend(*self, path_parts(path@)) == Some(*c),
            r is None <==> descend(*self, path_parts(path@)) is None,
    {
        let parts = split_text(path, '/');
        let ghost ps = path_parts(path@);
        let mut current = self;
        let mut i: usize = 0;
        assert(ps.subrange(0, ps.len() as int) =~= ps);
        while i < parts.len()
            invariant
                i <= parts@.len(),
                parts@.len() == ps.len(),
                ps == path_parts(path@),
                forall|k: int| 0 <= k < parts@.len() ==> #[trigger] parts@[k]@ == ps[k],
                descend(*self, ps) == descend(*current, ps.subrange(i as int, ps.len() as int)),
            decreases parts@.len() - i,
        {
            let ghost rest = ps.subrange(i as int, ps.len() as int);
            assert(rest.drop_first() =~= ps.subrange(i + 1, ps.len() as int));
            assert(rest[0] == parts@[i as int]@);
            if !parts[i].as_str().is_empty() {
                match current.child(parts[i].as_str()) {
                    Some(c) => {
                        current = c;
                    },
                    None => {
                        assert(rest.len() > 0 && rest[0].len() > 0);
                        assert(child_of(*current, rest[0]) is None);
                        assert(descend(*current, rest) is None);
                        return None;
                    },
                }
            }
            i = i + 1;
        }
        Some(current)
    }

    /// The node at `path`, as for `get`, to change.
    pub fn get_mut(&mut self, path: &str) -> (r: Option<&mut U8Node>)
        ensures
            r is None <==> descend(*old(self), path_parts(path@)) is None,
            r is None ==> *final(self) == *old(self),
            r matches Some(m) ==> descend(*old(self), path_parts(path@)) == Some(*m) && replaced_at(
                *old(self),
                path_parts(path@),
                *final(m),
                *final(self),
            ),
    {
        if self.get(path).is_none() {
            return None;
        }
        let parts = split_text(path, '/');
        proof {
            assert(parts@.map_values(|p: String| p@) =~= path_parts(path@));
            assert(path_parts(path@).subrange(0, path_parts(path@).len() as int) =~= path_parts(path@));
        }
        Some(descend_mut(self, &parts, 0))
    }
}

/// Replacing below a child, and then that child in its folder, replaces
/// below the folder.
proof fn lemma_replaced_step(n0: U8Node, rest: Seq<Seq<char>>, c0: U8Node)
    requires
        rest.len() > 0,
        rest[0].len() > 0,
        child_of(n0, rest[0]) == Some(c0),
    ensures
        descend(n0, rest) == descend(c0, rest.drop_first()),
        forall|x: U8Node, y: U8Node, z: U8Node|
            #![trigger child_replaced(n0, rest[0], x, y), replaced_at(c0, rest.drop_first(), z, x)]
            child_replaced(n0, rest[0], x, y) && replaced_at(c0, rest.drop_first(), z, x)
                ==> replaced_at(n0, rest, z, y),
{
    let k = lower_of(rest[0]);
    let f = n0->Folder_0;
    lemma_first_match_exists(f.entries(), k);
    let j = choose|j: int| first_match(f.entries(), k, j);
    lemma_lookup_at(f.entries(), k, j);
    assert forall|x: U8Node, y: U8Node, z: U8Node|
        #![trigger child_replaced(n0, rest[0], x, y), replaced_at(c0, rest.drop_first(), z, x)]
        child_replaced(n0, rest[0], x, y) && replaced_at(c0, rest.drop_first(), z, x)
            implies replaced_at(n0, rest, z, y) by {
        let g = y->Folder_0;
        let i = choose|i: int| #![trigger first_match(f.entries(), k, i)]
            first_match(f.entries(), k, i) && g.entries() == f.entries().update(i, (f.entries()[i].0, x));
        assert(i == j);
        assert(g.entries()[j].1 == x);
        assert(first_match(f.entries(), k, j));
    }
}

/// The node that `parts` from `i` on reach from `node`, which exists, to change.
fn descend_mut<'a>(node: &'a mut U8Node, parts: &Vec<String>, i: usize) -> (m: &'a mut U8Node)
    requires
        i <= parts@.len(),
        descend(*old(node), parts@.map_values(|p: String| p@).subrange(i as int, parts@.len() as int)) is Some,
    ensures
        ({
            let rest = parts@.map_values(|p: String| p@).subrange(i as int, parts@.len() as int);
            &&& descend(*old(node), rest) == Some(*m)
            &&& replaced_at(*old(node), rest, *final(m), *final(node))
        }),
    decreases parts@.len() - i,
{
    let ghost ps = parts@.map_values(|p: String| p@);
    let ghost rest = ps.subrange(i as int, parts@.len() as int);
    if i == parts.len() {
        return node;
    }
    assert(rest.drop_first() =~= ps.subrange(i + 1, parts@.len() as int));
    assert(rest[0] == parts@[i as int]@);
    if parts[i].as_str().is_empty() {
        return descend_mut(node, parts, i + 1);
    }
    let ghost n0 = *node;
    let c = node.child_mut(parts[i].as_str()).unwrap();
    let ghost c0 = *c;
    proof {
        lemma_replaced_step(n0, rest, c0);
    }
    descend_mut(c, parts, i + 1)
}

impl U8FolderNode {
    /// The child named `name`, without regard to case, to change.
    pub fn get_mut(&mut self, name: &str) -> (r: Option<&mut U8Node>)
        ensures
            r is None <==> lookup_node(old(self).entries(), lower_of(name@)) is None,
            r is None ==> *final(self) == *old(self),
            r matches Some(m) ==> exists|i: int|
                #![trigger first_match(old(self).entries(), lower_of(name@), i)]
                {
                    &&& first_match(old(self).entries(), lower_of(name@), i)
                    &&& *m == old(self).entries()[i].1
                    &&& final(self).entries() == old(self).entries().update(
                        i,
                        (old(self).entries()[i].0, *final(m)),
                    )
                },
    {
        let i = self.find(name);
        proof {
            lemma_first_match_exists(self.entries(), lower_of(name@));
        }
        if i < self.entries.len() {
            proof {
                lemma_lookup_at(self.entries(), lower_of(name@), i as int);
            }
            Some(&mut self.entries[i].1)
        } else {
            None
        }
    }
}

/// A node of the table in its flat form: whether it is a folder, its
/// name, and its two values (for a file the offset relative to the data
/// section and the size; for a folder its depth and the index past its
/// last descendant).
pub type Slot = (bool, Seq<char>, int, int);

/// The number of nodes of a subtree.
pub closed spec fn node_count(n: U8Node) -> nat
    decreases n,
{
    match n {
        U8Node::File(_) => 1,
        U8Node::Folder(f) => 1 + entries_count(f.entries@),
    }
}

/// The number of nodes under a list of entries.
pub closed spec fn entries_count(e: Seq<(String, U8Node)>) -> nat
    decreases e,
{
    if e.len() == 0 {
        0
    } else {
        entries_count(e.subrange(0, e.len() - 1)) + node_count(e[e.len() - 1].1)
    }
}

/// The depth value that a folder at nesting level `level` records; the
/// root is at level 0 and records 0, as do its children.
pub open spec fn depth_value(level: int) -> int {
    if level <= 1 {
        0
    } else {
        level - 1
    }
}

/// The nodes of a subtree in the order of the table, the subtree's root
/// being named `name`, at nesting level `level` and at index `start`.
pub closed spec fn flat_node(n: U8Node, name: Seq<char>, level: int, start: int) -> Seq<Slot>
    decreases n,
{
    match n {
        U8Node::File(f) => seq![(false, name, f.offset as int, f.size as int)],
        U8Node::Folder(f) => seq![(true, name, depth_value(level), start + node_count(n))]
            + flat_entries(f.entries@, level + 1, start + 1),
    }
}

/// The nodes under a list of entries in the order of the table.
pub closed spec fn flat_entries(e: Seq<(String, U8Node)>, level: int, start: int) -> Seq<Slot>
    decreases e,
{
    if e.len() == 0 {
        Seq::empty()
    } else {
        let init = e.subrange(0, e.len() - 1);
        flat_entries(init, level, start) + flat_node(
            e[e.len() - 1].1,
            e[e.len() - 1].0@,
            level,
            start + entries_count(init),
        )
    }
}

/// The count of a prefix of entries is at most that of the whole.
pub proof fn lemma_entries_count_prefix(e: Seq<(String, U8Node)>, i: int)
    requires
        0 <= i <= e.len(),
    ensures
        entries_count(e.subrange(0, i)) <= entries_count(e),
        i < e.len() ==> entries_count(e.subrange(0, i + 1)) == entries_count(e.subrange(0, i))
            + node_count(e[i].1),
    decreases e.len() - i,
{
    if i < e.len() {
        assert(e.subrange(0, i + 1).subrange(0, i) =~= e.subrange(0, i));
        lemma_entries_count_prefix(e, i + 1);
    } else {
        assert(e.subrange(0, i) =~= e);
    }
}

/// A folder counts itself and the nodes under its entries.
pub proof fn lemma_node_count_folder(f: U8FolderNode)
    ensures
        node_count(U8Node::Folder(f)) == 1 + entries_count(f.entries()),
        node_count(U8Node::Folder(f)) >= 1,
{
}

/// Every subtree has at least one node.
pub proof fn lemma_node_count_positive(n: U8Node)
    ensures
        node_count(n) >= 1,
{
}

/// The flat form of a list of entries, one entry longer.
pub proof fn lemma_flat_entries_step(e: Seq<(String, U8Node)>, i: int, level: int, start: int)
    requires
        0 <= i < e.len(),
    ensures
        flat_entries(e.subrange(0, i + 1), level, start) == flat_entries(e.subrange(0, i), level, start)
            + flat_node(e[i].1, e[i].0@, level, start + entries_count(e.subrange(0, i))),
{
    assert(e.subrange(0, i + 1).subrange(0, i) =~= e.subrange(0, i));
}

/// The flat form of a folder: itself, then its entries.
pub proof fn lemma_flat_folder(f: U8FolderNode, name: Seq<char>, level: int, start: int)
    ensures
        flat_node(U8Node::Folder(f), name, level, start) == seq![
            (true, name, depth_value(level), start + node_count(U8Node::Folder(f))),
        ] + flat_entries(f.entries(), level + 1, start + 1),
{
}

/// The flat form of a file: one node.
pub proof fn lemma_flat_file(f: U8FileNode, name: Seq<char>, level: int, start: int)
    ensures
        flat_node(U8Node::File(f), name, level, start) == seq![
            (false, name, f.offset as int, f.size as int),
        ],
{
}

/// The number of nodes of a subtree, or one more than `u32::MAX` where
/// there are more than that.
pub fn count_nodes(node: &U8Node) -> (r: u64)
    ensures
        r == if node_count(*node) <= u32::MAX {
            node_count(*node) as int
        } else {
            u32::MAX + 1
        },
    decreases node,
{
    match node {
        U8Node::File(_) => 1,
        U8Node::Folder(f) => {
            let ghost e = f.entries();
            let mut total: u64 = 1;
            let mut i: usize = 0;
            assert(e.subrange(0, 0) =~= Seq::<(String, U8Node)>::empty());
            while i < f.entries.len()
                invariant
                    i <= e.len(),
                    e == f.entries@,
                    *node == U8Node::Folder(*f),
                    total == if 1 + entries_count(e.subrange(0, i as int)) <= u32::MAX {
                        1 + entries_count(e.subrange(0, i as int)) as int
                    } else {
                        u32::MAX + 1
                    },
                decreases e.len() - i,
            {
                proof {
                    lemma_entries_count_prefix(e, i as int);
                    assert(decreases_to!(*node => (*node)->Folder_0));
                    assert((*node)->Folder_0 == *f);
                    assert(decreases_to!(f.entries => f.entries@));
                    assert(decreases_to!(f.entries@ => f.entries@[i as int]));
                    assert(decreases_to!(*node => f.entries@[i as int].1));
                }
                let c = count_nodes(&f.entries[i].1);
                total = if total + c > u32::MAX as u64 + 1 {
                    u32::MAX as u64 + 1
                } else {
                    total + c
                };
                if total > u32::MAX as u64 {
                    total = u32::MAX as u64 + 1;
                }
                i = i + 1;
            }
            assert(e.subrange(0, i as int) =~= e);
            total
        },
    }
}

/// The view of a flat node as the specification states it.
pub open spec fn slot_view(s: (bool, &str, u32, u32)) -> Slot {
    (s.0, s.1@, s.2 as int, s.3 as int)
}

/// Append the nodes of a subtree, in the order of the table, to `out`.
pub fn flatten_node<'a>(
    node: &'a U8Node,
    name: &'a str,
    level: u32,
    start: u32,
    out: &mut Vec<(bool, &'a str, u32, u32)>,
)
    requires
        start + node_count(*node) <= u32::MAX,
        level <= start,
    ensures
        final(out)@.map_values(|s: (bool, &str, u32, u32)| slot_view(s)) == old(out)@.map_values(
            |s: (bool, &str, u32, u32)| slot_view(s),
        ) + flat_node(*node, name@, level as int, start as int),
    decreases node,
{
    let ghost before = out@.map_values(|s: (bool, &str, u32, u32)| slot_view(s));
    match node {
        U8Node::File(f) => {
            out.push((false, name, f.offset, f.size));
            proof {
                lemma_flat_file(*f, name@, level as int, start as int);
                assert(out@.map_values(|s: (bool, &str, u32, u32)| slot_view(s)) =~= before + flat_node(
                    *node,
                    name@,
                    level as int,
                    start as int,
                ));
            }
        },
        U8Node::Folder(f) => {
            let ghost e = f.entries();
            proof {
                lemma_node_count_folder(*f);
                lemma_flat_folder(*f, name@, level as int, start as int);
            }
            let count = count_nodes(node);
            let depth: u32 = if level <= 1 {
                0
            } else {
                level - 1
            };
            out.push((true, name, depth, start + count as u32));
            let ghost head = seq![
                (true, name@, depth_value(level as int), start + node_count(*node)),
            ];
            assert(out@.map_values(|s: (bool, &str, u32, u32)| slot_view(s)) =~= before + head);
            let mut child_start: u32 = start + 1;
            let mut i: usize = 0;
            assert(e.subrange(0, 0) =~= Seq::<(String, U8Node)>::empty());
            while i < f.entries.len()
                invariant
                    i <= e.len(),
                    e == f.entries@,
                    e == f.entries(),
                    *node == U8Node::Folder(*f),
                    node_count(*node) == 1 + entries_count(e),
                    start + node_count(*node) <= u32::MAX,
                    level <= start,
                    child_start == start + 1 + entries_count(e.subrange(0, i as int)),
                    out@.map_values(|s: (bool, &str, u32, u32)| slot_view(s)) == before + head
                        + flat_entries(e.subrange(0, i as int), level + 1, start + 1),
                decreases e.len() - i,
            {
                proof {
                    lemma_entries_count_prefix(e, i as int);
                    lemma_entries_count_prefix(e, i + 1);
                    lemma_flat_entries_step(e, i as int, level + 1, start + 1);
                    lemma_node_count_positive(e[i as int].1);
                    assert(decreases_to!(*node => f.entries@[i as int].1));
                }
                let entry = &f.entries[i];
                let ghost mid = out@.map_values(|s: (bool, &str, u32, u32)| slot_view(s));
                flatten_node(&entry.1, entry.0.as_str(), level + 1, child_start, out);
                let c = count_nodes(&entry.1);
                child_start = child_start + c as u32;
                i = i + 1;
                assert(out@.map_values(|s: (bool, &str, u32, u32)| slot_view(s)) =~= before + head
                    + flat_entries(e.subrange(0, i as int), level + 1, start + 1));
            }
            assert(e.subrange(0, i as int) =~= e);
        },
    }
}

/// The files of a subtree, in the order of the table.
pub closed spec fn files_of_node(n: U8Node) -> Seq<U8FileNode>
    decreases n,
{
    match n {
        U8Node::File(f) => seq![f],
        U8Node::Folder(f) => files_of_entries(f.entries@),
    }
}

/// The files under a list of entries, in the order of the table.
pub closed spec fn files_of_entries(e: Seq<(String, U8Node)>) -> Seq<U8FileNode>
    decreases e,
{
    if e.len() == 0 {
        Seq::empty()
    } else {
        files_of_entries(e.subrange(0, e.len() - 1)) + files_of_node(e[e.len() - 1].1)
    }
}

/// `new` is `old` with the offsets of its files, in the order of the
/// table, set to `offs`, and all else as it was.
pub closed spec fn relabeled(old: U8Node, new: U8Node, offs: Seq<u32>) -> bool
    decreases old,
{
    match old {
        U8Node::File(f) => offs.len() == 1 && new == U8Node::File(U8FileNode { offset: offs[0], size: f.size }),
        U8Node::Folder(f) => match new {
            U8Node::Folder(g) => entries_relabeled(f.entries@, g.entries@, offs),
            U8Node::File(_) => false,
        },
    }
}

/// `g` is the list of entries `e` with the offsets of its files set to `offs`.
pub closed spec fn entries_relabeled(e: Seq<(String, U8Node)>, g: Seq<(String, U8Node)>, offs: Seq<u32>) -> bool
    decreases e,
{
    if e.len() == 0 {
        g.len() == 0 && offs.len() == 0
    } else {
        let k = files_of_entries(e.subrange(0, e.len() - 1)).len() as int;
        &&& g.len() == e.len()
        &&& 0 <= k <= offs.len()
        &&& entries_relabeled(e.subrange(0, e.len() - 1), g.subrange(0, g.len() - 1), offs.subrange(0, k))
        &&& g[g.len() - 1].0 == e[e.len() - 1].0
        &&& relabeled(e[e.len() - 1].1, g[g.len() - 1].1, offs.subrange(k, offs.len() as int))
    }
}

/// The files under the entries from index `n` on.
pub closed spec fn files_from(e: Seq<(String, U8Node)>, n: int) -> Seq<U8FileNode>
    decreases e.len() - n,
{
    if n >= e.len() || n < 0 {
        Seq::empty()
    } else {
        files_of_node(e[n].1) + files_from(e, n + 1)
    }
}

/// The files under a list of entries: those under a prefix, then the rest.
pub proof fn lemma_files_split(e: Seq<(String, U8Node)>, n: int)
    requires
        0 <= n <= e.len(),
    ensures
        files_of_entries(e) == files_of_entries(e.subrange(0, n)) + files_from(e, n),
    decreases e.len() - n,
{
    if n == e.len() {
        assert(e.subrange(0, n) =~= e);
        assert(files_of_entries(e) + Seq::<U8FileNode>::empty() =~= files_of_entries(e));
    } else {
        lemma_files_split(e, n + 1);
        lemma_files_of_entries_step(e, n);
        assert(files_of_entries(e.subrange(0, n)) + files_of_node(e[n].1) + files_from(e, n + 1) =~= files_of_entries(e.subrange(0, n)) + (files_of_node(e[n].1) + files_from(e, n + 1)));
    }
}

/// A file is its own single file.
pub proof fn lemma_files_of_file(f: U8FileNode)
    ensures
        files_of_node(U8Node::File(f)) == seq![f],
        forall|o: u32, n: U8Node|
            relabeled(U8Node::File(f), n, seq![o]) <== n == U8Node::File(U8FileNode { offset: o, size: f.size }),
{
}

/// A folder's files are those under its entries.
pub proof fn lemma_files_of_folder(f: U8FolderNode)
    ensures
        files_of_node(U8Node::Folder(f)) == files_of_entries(f.entries()),
        forall|g: U8FolderNode, offs: Seq<u32>|
            #[trigger] relabeled(U8Node::Folder(f), U8Node::Folder(g), offs) == entries_relabeled(f.entries(), g.entries(), offs),
{
}

/// The files under a list of entries, one entry longer.
pub proof fn lemma_files_of_entries_step(e: Seq<(String, U8Node)>, i: int)
    requires
        0 <= i < e.len(),
    ensures
        files_of_entries(e.subrange(0, i + 1)) == files_of_entries(e.subrange(0, i)) + files_of_node(e[i].1),
{
    assert(e.subrange(0, i + 1).subrange(0, i) =~= e.subrange(0, i));
}

/// No entries, no files.
pub proof fn lemma_files_of_entries_empty(e: Seq<(String, U8Node)>, g: Seq<(String, U8Node)>)
    requires
        e.len() == 0,
        g.len() == 0,
    ensures
        files_of_entries(e) == Seq::<U8FileNode>::empty(),
        entries_relabeled(e, g, Seq::empty()),
{
}

/// Relabeling one more entry extends a relabeled list of entries.
pub proof fn lemma_entries_relabeled_step(
    e: Seq<(String, U8Node)>,
    g: Seq<(String, U8Node)>,
    i: int,
    offs_a: Seq<u32>,
    offs_b: Seq<u32>,
)
    requires
        0 <= i < e.len(),
        i < g.len(),
        entries_relabeled(e.subrange(0, i), g.subrange(0, i), offs_a),
        offs_a.len() == files_of_entries(e.subrange(0, i)).len(),
        g[i].0 == e[i].0,
        relabeled(e[i].1, g[i].1, offs_b),
    ensures
        entries_relabeled(e.subrange(0, i + 1), g.subrange(0, i + 1), offs_a + offs_b),
{
    let e1 = e.subrange(0, i + 1);
    let g1 = g.subrange(0, i + 1);
    let o = offs_a + offs_b;
    assert(e1.subrange(0, i) =~= e.subrange(0, i));
    assert(g1.subrange(0, i) =~= g.subrange(0, i));
    assert(o.subrange(0, offs_a.len() as int) =~= offs_a);
    assert(o.subrange(offs_a.len() as int, o.len() as int) =~= offs_b);
}

/// Relabeling keeps the number of files.
pub proof fn lemma_relabeled_len(old: U8Node, new: U8Node, offs: Seq<u32>)
    requires
        relabeled(old, new, offs),
    ensures
        offs.len() == files_of_node(old).len(),
    decreases old,
{
    match old {
        U8Node::File(_) => {},
        U8Node::Folder(f) => {
            lemma_entries_relabeled_len(f.entries@, new->Folder_0.entries@, offs);
        },
    }
}

/// Relabeling a list of entries keeps the number of files.
pub proof fn lemma_entries_relabeled_len(e: Seq<(String, U8Node)>, g: Seq<(String, U8Node)>, offs: Seq<u32>)
    requires
        entries_relabeled(e, g, offs),
    ensures
        offs.len() == files_of_entries(e).len(),
    decreases e,
{
    if e.len() > 0 {
        let k = files_of_entries(e.subrange(0, e.len() - 1)).len() as int;
        lemma_entries_relabeled_len(e.subrange(0, e.len() - 1), g.subrange(0, g.len() - 1), offs.subrange(0, k));
        lemma_relabeled_len(e[e.len() - 1].1, g[g.len() - 1].1, offs.subrange(k, offs.len() as int));
    }
}

/// An entry's node is smaller than its folder.
pub proof fn lemma_entry_decreases(f: U8FolderNode, i: int)
    requires
        0 <= i < f.entries().len(),
    ensures
        decreases_to!(U8Node::Folder(f) => f.entries()[i].1),
{
    let n = U8Node::Folder(f);
    assert(decreases_to!(n => n->Folder_0));
    assert(decreases_to!(f => f.entries));
    assert(decreases_to!(f.entries => f.entries@));
    assert(decreases_to!(f.entries@ => f.entries@[i]));
    assert(decreases_to!(f.entries@[i] => f.entries@[i].1));
}

impl U8FolderNode {
    /// The node of entry `i`, to change.
    pub fn entry_node_mut(&mut self, i: usize) -> (r: &mut U8Node)
        requires
            i < old(self).entries().len(),
        ensures
            *r == old(self).entries()[i as int].1,
            final(self).entries() == old(self).entries().update(
                i as int,
                (old(self).entries()[i as int].0, *final(r)),
            ),
    {
        &mut self.entries[i].1
    }
}

/// The hexadecimal digit of `d`, in lower case.
pub open spec fn hex_digit(d: u32) -> char {
    if d < 10 {
        ((48 + d) as u8) as char
    } else {
        ((87 + d) as u8) as char
    }
}

/// The hexadecimal digits of `v`, without leading zeros.
pub open spec fn hex_digits(v: u32) -> Seq<char>
    decreases v,
{
    if v < 16 {
        seq![hex_digit(v)]
    } else {
        hex_digits(v / 16).push(hex_digit(v % 16))
    }
}

/// A number as `{:#x}` writes it, after a space.
pub open spec fn hex_field(v: u32) -> Seq<char> {
    seq![' ', '0', 'x'] + hex_digits(v)
}

/// The digits of a 32-bit number are at most eight ASCII characters.
proof fn lemma_hex_digits(v: u32)
    ensures
        1 <= hex_digits(v).len() <= 8,
        vstd::utf8::is_ascii_chars(hex_digits(v)),
        v < 0x1000_0000 ==> hex_digits(v).len() <= 7,
        v < 0x100_0000 ==> hex_digits(v).len() <= 6,
        v < 0x10_0000 ==> hex_digits(v).len() <= 5,
        v < 0x1_0000 ==> hex_digits(v).len() <= 4,
        v < 0x1000 ==> hex_digits(v).len() <= 3,
        v < 0x100 ==> hex_digits(v).len() <= 2,
    decreases v,
{
    if v >= 16 {
        lemma_hex_digits(v / 16);
    }
    assert forall|i: int| 0 <= i < hex_digits(v).len() implies '\0' <= #[trigger] hex_digits(v)[i] <= '\u{7f}' by {
        if v >= 16 && i < hex_digits(v).len() - 1 {
            assert(hex_digits(v)[i] == hex_digits(v / 16)[i]);
        }
    }
}

/// The field of a number is at most eleven bytes.
proof fn lemma_hex_field(v: u32)
    ensures
        encode_utf8(hex_field(v)).len() == hex_field(v).len(),
        hex_field(v).len() <= 11,
{
    lemma_hex_digits(v);
    assert(vstd::utf8::is_ascii_chars(hex_field(v))) by {
        assert forall|i: int| 0 <= i < hex_field(v).len() implies '\0' <= #[trigger] hex_field(v)[i] <= '\u{7f}' by {
            if i >= 3 {
                assert(hex_field(v)[i] == hex_digits(v)[i - 3]);
            }
        }
    }
    vstd::utf8::is_ascii_chars_encode_utf8(hex_field(v));
}

/// Append the hexadecimal digits of `v` to `s`.
fn push_hex_digits(s: &mut String, v: u32)
    ensures
        final(s)@ == old(s)@ + hex_digits(v),
    decreases v,
{
    if v >= 16 {
        push_hex_digits(s, v / 16);
    }
    let d = v % 16;
    let c: char = if d < 10 {
        ((48 + d) as u8) as char
    } else {
        ((87 + d) as u8) as char
    };
    push_char(s, c);
    proof {
        if v < 16 {
            assert(v % 16 == v);
        }
    }
}

/// `v` as `{:#x}` writes it, after a space.
fn hex_field_string(v: u32) -> (r: String)
    ensures
        r@ == hex_field(v),
{
    let mut s = String::new();
    push_char(&mut s, ' ');
    push_char(&mut s, '0');
    push_char(&mut s, 'x');
    push_hex_digits(&mut s, v);
    assert(s@ =~= hex_field(v));
    s
}

/// `n` spaces.
pub open spec fn spaces(n: int) -> Seq<char> {
    Seq::new(n as nat, |i: int| ' ')
}

/// Append `n` spaces to `s`.
fn push_spaces(s: &mut String, n: usize)
    ensures
        final(s)@ == old(s)@ + spaces(n as int),
{
    let ghost s0 = s@;
    let mut i: usize = 0;
    while i < n
        invariant
            i <= n,
            s@ == s0 + spaces(i as int),
        decreases n - i,
    {
        push_char(s, ' ');
        i = i + 1;
        assert(s@ =~= s0 + spaces(i as int));
    }
}

/// The line of a file named `name` at indentation `indent`: the name,
/// then its offset right-aligned to column 60 and its size to column 70,
/// columns counted in bytes.
pub open spec fn file_line(name: Seq<char>, f: U8FileNode, indent: int) -> Seq<char> {
    let w0 = indent + encode_utf8(name).len();
    let s1 = spaces_before(w0, 60, hex_field(f.offset).len() as int);
    let w1 = w0 + s1 + hex_field(f.offset).len();
    let s2 = spaces_before(w1, 70, hex_field(f.size).len() as int);
    spaces(indent) + name + spaces(s1) + hex_field(f.offset) + spaces(s2) + hex_field(f.size)
}

/// The text of a subtree named `name` at indentation `indent`: a file's
/// line, or a folder's name and '/', then each child on a line of its
/// own, two columns further in.
pub closed spec fn render(n: U8Node, name: Seq<char>, indent: int) -> Seq<char>
    decreases n,
{
    match n {
        U8Node::File(f) => file_line(name, f, indent),
        U8Node::Folder(f) => spaces(indent) + name + seq!['/'] + render_entries(f.entries@, indent + 2),
    }
}

/// The text of a list of entries at indentation `indent`, each on a new line.
pub closed spec fn render_entries(e: Seq<(String, U8Node)>, indent: int) -> Seq<char>
    decreases e,
{
    if e.len() == 0 {
        Seq::empty()
    } else {
        render_entries(e.subrange(0, e.len() - 1), indent) + seq!['\n'] + render(
            e[e.len() - 1].1,
            e[e.len() - 1].0@,
            indent,
        )
    }
}

/// The columns of the text of a subtree fit a `usize`.
pub closed spec fn display_fits(n: U8Node, name: Seq<char>, indent: int) -> bool
    decreases n,
{
    &&& 0 <= indent
    &&& indent + encode_utf8(name).len() + 256 <= usize::MAX
    &&& match n {
        U8Node::File(_) => true,
        U8Node::Folder(f) => entries_fit(f.entries@, indent + 2),
    }
}

/// The columns of the text of a list of entries fit a `usize`.
pub closed spec fn entries_fit(e: Seq<(String, U8Node)>, indent: int) -> bool
    decreases e,
{
    e.len() == 0 || (entries_fit(e.subrange(0, e.len() - 1), indent) && display_fits(
        e[e.len() - 1].1,
        e[e.len() - 1].0@,
        indent,
    ))
}

impl U8Node {
    /// Whether the columns of the text of this subtree fit a `usize`.
    pub fn fits_display(&self, name: &str, indent: usize) -> (r: bool)
        ensures
            r == display_fits(*self, name@, indent as int),
        decreases *self,
    {
        let name_len = name.as_bytes().len();
        if name_len > usize::MAX - 256 || indent > usize::MAX - 256 - name_len {
            return false;
        }
        assert(indent + encode_utf8(name@).len() + 256 <= usize::MAX);
        match self {
            U8Node::File(file) => {
                assert(display_fits(U8Node::File(*file), name@, indent as int));
                true
            },
            U8Node::Folder(folder) => {
                let ghost e = folder.entries@;
                let mut i: usize = 0;
                assert(e.subrange(0, 0) =~= Seq::<(String, U8Node)>::empty());
                while i < folder.entries.len()
                    invariant
                        i <= e.len(),
                        e == folder.entries@,
                        *self == U8Node::Folder(*folder),
                        indent + 2 <= usize::MAX,
                        entries_fit(e.subrange(0, i as int), indent + 2),
                    decreases e.len() - i,
                {
                    proof {
                        lemma_entry_decreases(*folder, i as int);
                        assert(e.subrange(0, i + 1).subrange(0, i as int) =~= e.subrange(0, i as int));
                    }
                    let entry = &folder.entries[i];
                    if !entry.1.fits_display(entry.0.as_str(), indent + 2) {
                        proof {
                            lemma_entries_fit_prefix(e, i + 1, indent + 2);
                        }
                        return false;
                    }
                    i = i + 1;
                }
                assert(e.subrange(0, i as int) =~= e);
                true
            },
        }
    }

    /// Append the text of this subtree, named `name`, at indentation
    /// `indent`, to `f`.
    pub fn fmt_with_indent(&self, f: &mut String, name: &str, indent: usize)
        requires
            display_fits(*self, name@, indent as int),
        ensures
            final(f)@ == old(f)@ + render(*self, name@, indent as int),
        decreases *self,
    {
        let ghost f0 = f@;
        match self {
            U8Node::File(file) => {
                push_spaces(f, indent);
                push_str(f, name);
                let mut amount_written = indent + name.as_bytes().len();
                let offset_text = hex_field_string(file.offset);
                let size_text = hex_field_string(file.size);
                proof {
                    lemma_hex_field(file.offset);
                    lemma_hex_field(file.size);
                }
                write_right_aligned_str(f, &mut amount_written, 60, offset_text.as_str());
                write_right_aligned_str(f, &mut amount_written, 70, size_text.as_str());
                assert(f@ =~= f0 + file_line(name@, *file, indent as int));
            },
            U8Node::Folder(folder) => {
                push_spaces(f, indent);
                push_str(f, name);
                push_char(f, '/');
                let ghost e = folder.entries@;
                let ghost head = f@;
                let mut i: usize = 0;
                assert(e.subrange(0, 0) =~= Seq::<(String, U8Node)>::empty());
                while i < folder.entries.len()
                    invariant
                        i <= e.len(),
                        e == folder.entries@,
                        *self == U8Node::Folder(*folder),
                        entries_fit(e, indent + 2),
                        f@ == head + render_entries(e.subrange(0, i as int), indent + 2),
                    decreases e.len() - i,
                {
                    proof {
                        lemma_entry_decreases(*folder, i as int);
                        assert(e.subrange(0, i + 1).subrange(0, i as int) =~= e.subrange(0, i as int));
                        lemma_entries_fit_prefix(e, i + 1, indent + 2);
                    }
                    push_char(f, '\n');
                    let entry = &folder.entries[i];
                    entry.1.fmt_with_indent(f, entry.0.as_str(), indent + 2);
                    i = i + 1;
                    assert(f@ =~= head + render_entries(e.subrange(0, i as int), indent + 2));
                }
                assert(e.subrange(0, i as int) =~= e);
                assert(f@ =~= f0 + render(*self, name@, indent as int));
            },
        }
    }

    /// The listing of the tree: a header line, then the tree from this
    /// node down, or `None` where its columns do not fit a `usize`.
    pub fn display(&self) -> (r: Option<String>)
        ensures
            r is Some <==> display_fits(*self, Seq::empty(), 0),
            r matches Some(s) ==> s@ == display_header() + render(*self, Seq::empty(), 0),
    {
        let root_name = "";
        proof {
            reveal_strlit("");
        }
        assert(root_name@ =~= Seq::<char>::empty());
        if !self.fits_display(root_name, 0) {
            return None;
        }
        let mut f = String::new();
        push_str(&mut f, "FILENAME");
        proof {
            reveal_strlit("FILENAME");
            reveal_strlit("OFFSET");
            reveal_strlit("SIZE\n");
            assert("OFFSET"@ =~= seq!['O', 'F', 'F', 'S', 'E', 'T']);
            assert("SIZE\n"@ =~= seq!['S', 'I', 'Z', 'E', '\n']);
            assert(vstd::utf8::is_ascii_chars("OFFSET"@));
            assert(vstd::utf8::is_ascii_chars("SIZE\n"@));
            vstd::utf8::is_ascii_chars_encode_utf8("OFFSET"@);
            vstd::utf8::is_ascii_chars_encode_utf8("SIZE\n"@);
        }
        let mut amount_written: usize = 8;
        write_right_aligned_str(&mut f, &mut amount_written, 60, "OFFSET");
        write_right_aligned_str(&mut f, &mut amount_written, 71, "SIZE\n");
        let ghost header = f@;
        self.fmt_with_indent(&mut f, root_name, 0);
        proof {
            lemma_display_header(header);
        }
        Some(f)
    }
}

/// The header line of a listing.
pub open spec fn display_header() -> Seq<char> {
    "FILENAME"@ + spaces(46) + "OFFSET"@ + spaces(6) + "SIZE\n"@
}

/// The header that `display` writes is `display_header`.
proof fn lemma_display_header(h: Seq<char>)
    requires
        h == "FILENAME"@ + Seq::new(46, |i: int| ' ') + "OFFSET"@ + Seq::new(6, |i: int| ' ') + "SIZE\n"@,
    ensures
        h == display_header(),
{
    assert(Seq::new(46, |i: int| ' ') =~= spaces(46));
    assert(Seq::new(6, |i: int| ' ') =~= spaces(6));
}

/// Where all entries fit, so do those of a prefix.
proof fn lemma_entries_fit_prefix(e: Seq<(String, U8Node)>, n: int, indent: int)
    requires
        0 <= n <= e.len(),
    ensures
        entries_fit(e, indent) ==> entries_fit(e.subrange(0, n), indent),
        entries_fit(e, indent) && n > 0 ==> display_fits(e[n - 1].1, e[n - 1].0@, indent),
        entries_fit(e.subrange(0, n - 1), indent) && n > 0 && display_fits(e[n - 1].1, e[n - 1].0@, indent) ==> entries_fit(e.subrange(0, n), indent),
    decreases e.len() - n,
{
    lemma_entries_fit_prefix_only(e, n, indent);
    if n > 0 {
        let s = e.subrange(0, n);
        assert(s.len() == n);
        assert(s.subrange(0, n - 1) =~= e.subrange(0, n - 1));
        assert(s[n - 1] == e[n - 1]);
    }
}

/// Where all entries fit, so do those of a prefix.
proof fn lemma_entries_fit_prefix_only(e: Seq<(String, U8Node)>, n: int, indent: int)
    requires
        0 <= n <= e.len(),
    ensures
        entries_fit(e, indent) ==> entries_fit(e.subrange(0, n), indent),
    decreases e.len() - n,
{
    if n < e.len() {
        lemma_entries_fit_prefix_only(e, n + 1, indent);
        assert(e.subrange(0, n + 1).subrange(0, n) =~= e.subrange(0, n));
    } else {
        assert(e.subrange(0, n) =~= e);
    }
}

impl U8FolderNode {
    /// The folder's invariant: its entries are in strictly increasing
    /// order of the bytes of their lower-case names, so that no two names
    /// are equal without regard to case and a walk visits them in
    /// case-insensitive alphabetical order. `new` gives it, and `insert`
    /// and `remove` keep it.
    pub open spec fn wf(&self) -> bool {
        entries_sorted(self.entries())
    }
}

/// In a well-formed folder each entry is the one found under its own
/// lower-case name, and there are as many entries as names.
pub proof fn lemma_wf_entries(f: U8FolderNode)
    requires
        f.wf(),
    ensures
        forall|i: int|
            0 <= i < f.entries().len() ==> #[trigger] lookup(f.entries(), lower_of(f.entries()[i].0@)) == Some(f.entries()[i]),
        entries_map(f.entries()).dom().len() == f.entries().len(),
{
    let e = f.entries();
    assert forall|i: int, j: int| 0 <= i < j < e.len() implies lower_of(e[i].0@) != lower_of(e[j].0@) by {
        assert(bytes_lt(order_key(e[i].0@), order_key(e[j].0@)));
        lemma_bytes_lt_order(order_key(e[i].0@), order_key(e[j].0@), order_key(e[i].0@));
        lemma_order_key_injective(e[i].0@, e[j].0@);
    }
    assert forall|i: int| 0 <= i < e.len() implies #[trigger] lookup(e, lower_of(e[i].0@)) == Some(e[i]) by {
        assert forall|j: int| 0 <= j < i implies lower_of(#[trigger] e[j].0@) != lower_of(e[i].0@) by {}
        assert(first_match(e, lower_of(e[i].0@), i));
        lemma_lookup_at(e, lower_of(e[i].0@), i);
    }
    let keys = e.map_values(|x: (String, U8Node)| lower_of(x.0@));
    assert(keys.no_duplicates()) by {
        assert forall|i: int, j: int| 0 <= i < keys.len() && 0 <= j < keys.len() && i != j implies keys[i] != keys[j] by {
            if i < j {
                assert(lower_of(e[i].0@) != lower_of(e[j].0@));
            } else {
                assert(lower_of(e[j].0@) != lower_of(e[i].0@));
            }
        }
    }
    keys.unique_seq_to_set();
    assert(entries_map(e).dom() =~= keys.to_set()) by {
        assert forall|k: Seq<char>| entries_map(e).dom().contains(k) <==> keys.to_set().contains(k) by {
            if has_key(e, k) {
                let i = choose|i: int| 0 <= i < e.len() && lower_of(#[trigger] e[i].0@) == k;
                assert(keys[i] == k);
            }
            if keys.to_set().contains(k) {
                let i = choose|i: int| 0 <= i < keys.len() && keys[i] == k;
                assert(lower_of(e[i].0@) == k);
            }
        }
    }
}

/// The text of a file: its line.
pub proof fn lemma_render_file(f: U8FileNode, name: Seq<char>, indent: int)
    ensures
        render(U8Node::File(f), name, indent) == file_line(name, f, indent),
{
}

/// The text of a folder: its name and '/', then its entries.
pub proof fn lemma_render_folder(f: U8FolderNode, name: Seq<char>, indent: int)
    ensures
        render(U8Node::Folder(f), name, indent) == spaces(indent) + name + seq!['/'] + render_entries(f.entries(), indent + 2),
{
}

/// The text of a list of entries, one entry longer.
pub proof fn lemma_render_entries_step(e: Seq<(String, U8Node)>, i: int, indent: int)
    requires
        0 <= i < e.len(),
    ensures
        render_entries(e.subrange(0, i + 1), indent) == render_entries(e.subrange(0, i), indent) + seq!['\n']
            + render(e[i].1, e[i].0@, indent),
{
    assert(e.subrange(0, i + 1).subrange(0, i) =~= e.subrange(0, i));
}

/// The flat form of a list of entries, one entry longer, and the count.
pub proof fn lemma_entries_count_step(e: Seq<(String, U8Node)>, i: int)
    requires
        0 <= i < e.len(),
    ensures
        entries_count(e.subrange(0, i + 1)) == entries_count(e.subrange(0, i)) + node_count(e[i].1),
        entries_count(Seq::<(String, U8Node)>::empty()) == 0,
{
    assert(e.subrange(0, i + 1).subrange(0, i) =~= e.subrange(0, i));
}

impl U8Node {
    /// The node of entry `i` of a folder, to change; `None` for a file or
    /// an index past the entries. With `len` and `entry`, this walks a
    /// folder's children to change them.
    pub fn entry_mut(&mut self, i: usize) -> (r: Option<&mut U8Node>)
        ensures
            match *old(self) {
                U8Node::Folder(f) => if i < f.entries().len() {
                    r matches Some(m) && *m == f.entries()[i as int].1 && (*final(self) matches U8Node::Folder(g)
                        && g.entries() == f.entries().update(i as int, (f.entries()[i as int].0, *final(m))))
                } else {
                    r is None && *final(self) == *old(self)
                },
                U8Node::File(_) => r is None && *final(self) == *old(self),
            },
    {
        match self {
            U8Node::Folder(f) => if i < f.len() {
                Some(f.entry_node_mut(i))
            } else {
                None
            },
            U8Node::File(_) => None,
        }
    }
}

/// Every folder of the tree is well formed.
pub closed spec fn tree_wf(n: U8Node) -> bool
    decreases n,
{
    match n {
        U8Node::File(_) => true,
        U8Node::Folder(f) => entries_sorted(f.entries@) && entries_wf(f.entries@),
    }
}

/// Every folder under a list of entries is well formed.
pub closed spec fn entries_wf(e: Seq<(String, U8Node)>) -> bool
    decreases e,
{
    e.len() == 0 || (entries_wf(e.subrange(0, e.len() - 1)) && tree_wf(e[e.len() - 1].1))
}

/// A tree is well formed when its root is a file, or a well-formed folder
/// whose entries are well-formed trees.
pub proof fn lemma_tree_wf(n: U8Node)
    ensures
        n is File ==> tree_wf(n),
        n matches U8Node::Folder(f) ==> (tree_wf(n) <==> (f.wf() && forall|i: int|
            0 <= i < f.entries().len() ==> #[trigger] tree_wf(f.entries()[i].1))),
{
    if let U8Node::Folder(f) = n {
        lemma_entries_wf(f.entries@);
    }
}

/// Every folder under a list of entries is well formed exactly when each
/// entry is a well-formed tree.
proof fn lemma_entries_wf(e: Seq<(String, U8Node)>)
    ensures
        entries_wf(e) <==> forall|i: int| 0 <= i < e.len() ==> #[trigger] tree_wf(e[i].1),
    decreases e.len(),
{
    if e.len() > 0 {
        let init = e.subrange(0, e.len() - 1);
        lemma_entries_wf(init);
        if forall|i: int| 0 <= i < e.len() ==> #[trigger] tree_wf(e[i].1) {
            assert forall|i: int| 0 <= i < init.len() implies #[trigger] tree_wf(init[i].1) by {
                assert(init[i] == e[i]);
            }
            assert(tree_wf(e[e.len() - 1].1));
            assert(entries_wf(e));
        }
        if entries_wf(e) {
            assert forall|i: int| 0 <= i < e.len() implies #[trigger] tree_wf(e[i].1) by {
                if i < e.len() - 1 {
                    assert(init[i] == e[i]);
                }
            }
        }
    }
}

/// Replacing entry `i` by one with the same key changes nothing for
/// other keys.
pub proof fn lemma_lookup_same_elsewhere(
    before: Seq<(String, U8Node)>,
    e: Seq<(String, U8Node)>,
    k2: Seq<char>,
    i: int,
)
    requires
        0 <= i < before.len(),
        e.len() == before.len(),
        forall|j: int| 0 <= j < e.len() && j != i ==> e[j] == before[j],
        lower_of(e[i].0@) == lower_of(before[i].0@),
        lower_of(e[i].0@) != k2,
    ensures
        lookup(e, k2) == lookup(before, k2),
        has_key(e, k2) == has_key(before, k2),
{
    lemma_first_match_exists(e, k2);
    lemma_first_match_exists(before, k2);
    assert forall|j: int| #[trigger] first_match(e, k2, j) <==> first_match(before, k2, j) by {
        if 0 <= j < e.len() {
            assert forall|m: int| 0 <= m < j implies (lower_of(#[trigger] e[m].0@) != k2 <==> lower_of(before[m].0@) != k2) by {
                if m != i {
                    assert(e[m] == before[m]);
                }
            }
            if j != i {
                assert(e[j] == before[j]);
            }
        }
    }
    if exists|j: int| first_match(e, k2, j) {
        let j = choose|j: int| first_match(e, k2, j);
        lemma_lookup_at(e, k2, j);
        lemma_lookup_at(before, k2, j);
        if j != i {
            assert(e[j] == before[j]);
        }
    }
    assert forall|j: int| 0 <= j < e.len() && lower_of(#[trigger] e[j].0@) == k2 implies has_key(before, k2) by {
        if j != i {
            assert(e[j] == before[j]);
        }
        assert(lower_of(before[j].0@) == k2);
    }
    assert forall|j: int| 0 <= j < before.len() && lower_of(#[trigger] before[j].0@) == k2 implies has_key(e, k2) by {
        if j != i {
            assert(e[j] == before[j]);
        }
        assert(lower_of(e[j].0@) == k2);
    }
}

/// Inserting at `i` an entry of another key changes nothing for `k2`.
proof fn lemma_lookup_after_insert(
    before: Seq<(String, U8Node)>,
    e: Seq<(String, U8Node)>,
    k2: Seq<char>,
    i: int,
)
    requires
        0 <= i <= before.len(),
        e.len() == before.len() + 1,
        forall|j: int| 0 <= j < i ==> e[j] == before[j],
        forall|j: int| i < j < e.len() ==> e[j] == before[j - 1],
        lower_of(e[i].0@) != k2,
    ensures
        lookup(e, k2) == lookup(before, k2),
        has_key(e, k2) == has_key(before, k2),
{
    lemma_first_match_exists(e, k2);
    lemma_first_match_exists(before, k2);
    if exists|j: int| first_match(e, k2, j) {
        let j = choose|j: int| first_match(e, k2, j);
        lemma_lookup_at(e, k2, j);
        let jb = if j < i { j } else { j - 1 };
        assert(first_match(before, k2, jb)) by {
            assert forall|m: int| 0 <= m < jb implies lower_of(#[trigger] before[m].0@) != k2 by {
                if m < i {
                    assert(e[m] == before[m]);
                } else {
                    assert(e[m + 1] == before[m]);
                }
            }
        }
        lemma_lookup_at(before, k2, jb);
    } else if exists|j: int| first_match(before, k2, j) {
        let jb = choose|j: int| first_match(before, k2, j);
        let j = if jb < i { jb } else { jb + 1 };
        assert(first_match(e, k2, j)) by {
            assert forall|m: int| 0 <= m < j implies lower_of(#[trigger] e[m].0@) != k2 by {
                if m < i {
                    assert(e[m] == before[m]);
                } else if m > i {
                    assert(e[m] == before[m - 1]);
                }
            }
        }
    }
}

} // verus!
