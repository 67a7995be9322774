//! The type index: a space-efficient mapping from subject identifiers to
//! the set of semantic types asserted for them. Each distinct type string
//! is stored once in a catalogue; a subject is stored only as a 64-bit
//! hash of its identifier, referring to its types by catalogue position.
//!
//! Two distinct subjects whose hashes collide are merged, silently
//! widening their apparent type set: the original identifier is not kept
//! for verification. This is a documented approximation, accepted so that
//! memory stays proportional to the number of distinct subjects and types
//! rather than to the number of statements.

use std::collections::hash_map::DefaultHasher;
use std::hash::Hasher;
use vstd::prelude::*;
use vstd::std_specs::hash::DefaultHasherAdditionalSpecFns;
use vstd::string::*;
use vstd::utf8::encode_utf8;

verus! {

/// The 64-bit key under which a subject identifier is filed: the outcome
/// of the standard hasher fed the identifier's bytes in one write.
pub open spec fn subject_hash(s: Seq<char>) -> u64 {
    DefaultHasher::spec_finish(seq![encode_utf8(s)])
}

/// Computes the key for a subject identifier.
fn hash_str(s: &str) -> (r: u64)
    ensures
        r == subject_hash(s@),
{
    let mut hasher = DefaultHasher::new();
    hasher.write(s.as_bytes());
    proof {
        assert(hasher@ =~= seq![encode_utf8(s@)]);
    }
    hasher.finish()
}

/// What a subject's filed types become when one more type is added:
/// a fresh key starts with just that type, and a known key gains it only
/// when it is not already held.
pub open spec fn types_after(prev: Option<Seq<Seq<char>>>, ty: Seq<char>) -> Option<
    Seq<Seq<char>>,
> {
    match prev {
        None => Some(seq![ty]),
        Some(ts) => Some(
            if ts.contains(ty) {
                ts
            } else {
                ts.push(ty)
            },
        ),
    }
}

/// The types filed under key `k` once the subject-type pairs have been
/// inserted, in order, into an empty index.
pub open spec fn spec_index_of_pairs(pairs: Seq<(String, String)>, k: u64) -> Option<
    Seq<Seq<char>>,
>
    decreases pairs.len(),
{
    if pairs.len() == 0 {
        None
    } else {
        let prev = spec_index_of_pairs(pairs.drop_last(), k);
        if subject_hash(pairs.last().0@) == k {
            types_after(prev, pairs.last().1@)
        } else {
            prev
        }
    }
}

/// One subject of the index: its hashed identifier and the catalogue
/// positions of its types, in insertion order.
pub struct IndexEntry {
    pub key: u64,
    pub type_ids: Vec<usize>,
}

/// Maps hashed subject identifiers to their types. The type strings are
/// stored once, in `types`; each entry refers to them by position.
pub struct TypeIndex {
    pub types: Vec<String>,
    pub entries: Vec<IndexEntry>,
}

impl TypeIndex {
    /// The catalogue never holds a string twice, no key is filed twice,
    /// and every entry's positions are distinct and inside the catalogue.
    pub open spec fn wf(&self) -> bool {
        &&& forall|i: int, j: int|
            0 <= i < j < self.types@.len() ==> (#[trigger] self.types@[i])@ != (
            #[trigger] self.types@[j])@
        &&& forall|i: int, j: int|
            0 <= i < j < self.entries@.len() ==> (#[trigger] self.entries@[i]).key != (
            #[trigger] self.entries@[j]).key
        &&& forall|e: int|
            0 <= e < self.entries@.len() ==> (forall|a: int|
                0 <= a < (#[trigger] self.entries@[e]).type_ids@.len()
                    ==> (#[trigger] self.entries@[e].type_ids@[a]) < self.types@.len())
        &&& forall|e: int, a: int, b: int|
            0 <= e < self.entries@.len() && 0 <= a < b < self.entries@[e].type_ids@.len()
                ==> (#[trigger] self.entries@[e].type_ids@[a]) != (#[trigger] self.entries@[
            e].type_ids@[b])
    }

    /// Is some subject filed under this key?
    pub open spec fn has_key(&self, k: u64) -> bool {
        exists|i: int| 0 <= i < self.entries@.len() && (#[trigger] self.entries@[i]).key == k
    }

    /// The type strings filed under this key, in insertion order.
    pub open spec fn spec_get(&self, k: u64) -> Option<Seq<Seq<char>>> {
        if self.has_key(k) {
            let i = choose|i: int|
                0 <= i < self.entries@.len() && (#[trigger] self.entries@[i]).key == k;
            Some(
                self.entries@[i].type_ids@.map_values(
                    |id: usize| (self.types@[id as int])@,
                ),
            )
        } else {
            None
        }
    }

    /// An empty index.
    pub fn new() -> (r: TypeIndex)
        ensures
            r.wf(),
            r.types@.len() == 0,
            r.entries@.len() == 0,
            forall|k: u64| r.spec_get(k) is None,
    {
        TypeIndex { types: Vec::new(), entries: Vec::new() }
    }

    /// Builds an index from subject-type pairs, inserted in order: it
    /// answers every key exactly as an empty index does after those
    /// inserts.
    #[verifier::loop_isolation(false)]
    pub fn from_iter(type_map: &Vec<(String, String)>) -> (r: TypeIndex)
        ensures
            r.wf(),
            forall|k: u64| #[trigger] r.spec_get(k) == spec_index_of_pairs(type_map@, k),
    {
        let mut idx = TypeIndex::new();
        let n = type_map.len();
        let mut i: usize = 0;
        while i < n
            invariant
                0 <= i <= n,
                idx.wf(),
                forall|k: u64|
                    #[trigger] idx.spec_get(k) == spec_index_of_pairs(
                        type_map@.subrange(0, i as int),
                        k,
                    ),
            decreases n - i,
        {
            let (subject_uri, type_uri) = &type_map[i];
            let ghost prev = idx;
            idx.insert(subject_uri.as_str(), type_uri.as_str());
            proof {
                let pre = type_map@.subrange(0, i as int);
                let cur = type_map@.subrange(0, i + 1);
                assert(cur.drop_last() =~= pre);
                assert(cur.last() == type_map@[i as int]);
                assert forall|k: u64| #[trigger] idx.spec_get(k) == spec_index_of_pairs(
                    cur,
                    k,
                ) by {
                    if k == subject_hash(type_map@[i as int].0@) {
                        assert(idx.spec_get(k) == types_after(prev.spec_get(k), type_map@[
                        i as int].1@));
                    } else {
                        assert(idx.spec_get(k) == prev.spec_get(k));
                    }
                }
            }
            i += 1;
        }
        proof {
            assert(type_map@.subrange(0, n as int) =~= type_map@);
        }
        idx
    }

    /// Position of `type_uri` in the catalogue, appending it when new.
    #[verifier::loop_isolation(false)]
    fn type_id(&mut self, type_uri: &str) -> (r: usize)
        requires
            old(self).wf(),
        ensures
            final(self).wf(),
            final(self).entries@ == old(self).entries@,
            r < final(self).types@.len(),
            (final(self).types@[r as int])@ == type_uri@,
            old(self).types@.len() <= final(self).types@.len(),
            final(self).types@.len() == old(self).types@.len() || r == old(self).types@.len(),
            forall|i: int|
                0 <= i < old(self).types@.len() ==> (#[trigger] final(self).types@[i])@ == (
                old(self).types@[i])@,
    {
        let tu = String::from_str(type_uri);
        let n = self.types.len();
        let mut i: usize = 0;
        while i < n
            invariant
                0 <= i <= n,
                forall|j: int| 0 <= j < i ==> (#[trigger] self.types@[j])@ != type_uri@,
            decreases n - i,
        {
            if self.types[i].eq(&tu) {
                return i;
            }
            i += 1;
        }
        self.types.push(tu);
        n
    }

    /// Files the subject-type pair: the subject's key gains the type's
    /// catalogue position unless it already holds it. Other keys are
    /// untouched.
    #[verifier::loop_isolation(false)]
    pub fn insert(&mut self, subject_uri: &str, type_uri: &str)
        requires
            old(self).wf(),
        ensures
            final(self).wf(),
            final(self).spec_get(subject_hash(subject_uri@)) == types_after(
                old(self).spec_get(subject_hash(subject_uri@)),
                type_uri@,
            ),
            forall|k2: u64|
                k2 != subject_hash(subject_uri@) ==> #[trigger] final(self).spec_get(k2) == old(
                    self,
                ).spec_get(k2),
            old(self).types@.len() <= final(self).types@.len(),
            forall|i: int|
                0 <= i < old(self).types@.len() ==> (#[trigger] final(self).types@[i])@ == (
                old(self).types@[i])@,
    {
        let key = hash_str(subject_uri);
        let type_idx = self.type_id(type_uri);
        let ghost mid = *self;
        let n = self.entries.len();
        let mut e: usize = 0;
        while e < n
            invariant
                0 <= e <= n,
                *self == mid,
                forall|j: int| 0 <= j < e ==> (#[trigger] self.entries@[j]).key != key,
            decreases n - e,
        {
            if self.entries[e].key == key {
                let ids_n = self.entries[e].type_ids.len();
                let mut a: usize = 0;
                while a < ids_n
                    invariant
                        0 <= a <= ids_n,
                        *self == mid,
                        forall|b: int|
                            0 <= b < a ==> (#[trigger] self.entries@[e as int].type_ids@[b])
                                != type_idx,
                    decreases ids_n - a,
                {
                    if self.entries[e].type_ids[a] == type_idx {
                        proof {
                            lemma_insert_found_present(*self, e as int, a as int, key, type_idx);
                            assert(type_idx < old(self).types@.len());
                            lemma_spec_get_congruence(*old(self), mid);
                        }
                        return ;
                    }
                    a += 1;
                }
                self.entries[e].type_ids.push(type_idx);
                proof {
                    lemma_insert_found_absent(mid, *self, e as int, key, type_idx);
                    lemma_spec_get_congruence(*old(self), mid);
                }
                return ;
            }
            e += 1;
        }
        let mut first_ids: Vec<usize> = Vec::new();
        first_ids.push(type_idx);
        proof {
            assert(first_ids@ =~= seq![type_idx]);
        }
        self.entries.push(IndexEntry { key, type_ids: first_ids });
        proof {
            lemma_insert_new_key(mid, *self, key, type_idx);
            lemma_spec_get_congruence(*old(self), mid);
        }
    }

    /// The type strings filed under the subject's key, or nothing when the
    /// key is absent.
    #[verifier::loop_isolation(false)]
    pub fn get(&self, subject_key: &str) -> (r: Option<Vec<String>>)
        requires
            self.wf(),
        ensures
            match r {
                Some(v) => self.spec_get(subject_hash(subject_key@)) matches Some(ts) && v@
                    .map_values(|t: String| t@) == ts,
                None => self.spec_get(subject_hash(subject_key@)) is None,
            },
    {
        let key = hash_str(subject_key);
        let n = self.entries.len();
        let mut e: usize = 0;
        while e < n
            invariant
                0 <= e <= n,
                forall|j: int| 0 <= j < e ==> (#[trigger] self.entries@[j]).key != key,
            decreases n - e,
        {
            if self.entries[e].key == key {
                let ids_n = self.entries[e].type_ids.len();
                let mut out: Vec<String> = Vec::new();
                let mut a: usize = 0;
                while a < ids_n
                    invariant
                        0 <= a <= ids_n,
                        out@.len() == a,
                        forall|b: int|
                            0 <= b < a ==> (#[trigger] out@[b])@ == (self.types@[self.entries@[
                            e as int].type_ids@[b] as int])@,
                    decreases ids_n - a,
                {
                    let id = self.entries[e].type_ids[a];
                    out.push(self.types[id].clone());
                    a += 1;
                }
                proof {
                    let k = subject_hash(subject_key@);
                    assert(self.has_key(k));
                    let i = choose|i: int|
                        0 <= i < self.entries@.len() && (#[trigger] self.entries@[i]).key == k;
                    assert(i == e) by {
                        if i != e {
                            assert(self.entries@[i].key == self.entries@[e as int].key);
                        }
                    }
                    assert(out@.map_values(|t: String| t@) =~= self.entries@[e as int].type_ids@
                        .map_values(|id: usize| (self.types@[id as int])@));
                }
                return Some(out);
            }
            e += 1;
        }
        proof {
            assert(!self.has_key(subject_hash(subject_key@)));
        }
        None
    }
}

/// Two indexes with the same entries whose catalogues agree on the shared
/// prefix say the same about every key, provided the first is well-formed
/// and the second's catalogue only extends the first's.
proof fn lemma_spec_get_congruence(a: TypeIndex, b: TypeIndex)
    requires
        a.wf(),
        a.entries@ == b.entries@,
        a.types@.len() <= b.types@.len(),
        forall|i: int| 0 <= i < a.types@.len() ==> (#[trigger] a.types@[i])@ == (b.types@[i])@,
    ensures
        forall|k: u64| #[trigger] a.spec_get(k) == b.spec_get(k),
{
    assert forall|k: u64| #[trigger] a.spec_get(k) == b.spec_get(k) by {
        assert(a.has_key(k) == b.has_key(k));
        if a.has_key(k) {
            let ia = choose|i: int|
                0 <= i < a.entries@.len() && (#[trigger] a.entries@[i]).key == k;
            let ib = choose|i: int|
                0 <= i < b.entries@.len() && (#[trigger] b.entries@[i]).key == k;
            assert(ia == ib) by {
                if ia != ib {
                    assert(a.entries@[ia].key == a.entries@[ib].key);
                }
            }
            assert(a.spec_get(k) matches Some(ta) && b.spec_get(k) matches Some(tb) && ta =~= tb);
        }
    }
}

/// When the subject's key is already filed and already holds the type's
/// position, the index says the same afterwards as before.
proof fn lemma_insert_found_present(idx: TypeIndex, e: int, a: int, key: u64, type_idx: usize)
    requires
        idx.wf(),
        0 <= e < idx.entries@.len(),
        idx.entries@[e].key == key,
        0 <= a < idx.entries@[e].type_ids@.len(),
        idx.entries@[e].type_ids@[a] == type_idx,
    ensures
        idx.spec_get(key) matches Some(ts) && ts.contains((idx.types@[type_idx as int])@),
{
    let i = choose|i: int| 0 <= i < idx.entries@.len() && (#[trigger] idx.entries@[i]).key == key;
    assert(idx.has_key(key));
    assert(i == e) by {
        if i != e {
            assert(idx.entries@[i].key == idx.entries@[e].key);
        }
    }
    let ts = idx.entries@[e].type_ids@.map_values(|id: usize| (idx.types@[id as int])@);
    assert(ts[a] == (idx.types@[type_idx as int])@);
}

/// When the subject's key is already filed without the type's position,
/// appending the position appends the type string to what is said.
proof fn lemma_insert_found_absent(pre: TypeIndex, post: TypeIndex, e: int, key: u64, ti: usize)
    requires
        pre.wf(),
        0 <= e < pre.entries@.len(),
        pre.entries@[e].key == key,
        forall|b: int| 0 <= b < pre.entries@[e].type_ids@.len() ==> (#[trigger] pre.entries@[
        e].type_ids@[b]) != ti,
        ti < pre.types@.len(),
        post.types@ == pre.types@,
        post.entries@.len() == pre.entries@.len(),
        post.entries@[e].key == key,
        post.entries@[e].type_ids@ == pre.entries@[e].type_ids@.push(ti),
        forall|j: int|
            0 <= j < pre.entries@.len() && j != e ==> #[trigger] post.entries@[j]
                == pre.entries@[j],
    ensures
        post.wf(),
        pre.spec_get(key) matches Some(old_ts) && post.spec_get(key) matches Some(ts) && ts
            == old_ts.push((pre.types@[ti as int])@) && !old_ts.contains((pre.types@[ti as int])@),
        forall|k2: u64| k2 != key ==> #[trigger] post.spec_get(k2) == pre.spec_get(k2),
{
    assert(pre.has_key(key));
    assert(post.has_key(key));
    let ip = choose|i: int| 0 <= i < pre.entries@.len() && (#[trigger] pre.entries@[i]).key == key;
    assert(ip == e) by {
        if ip != e {
            assert(pre.entries@[ip].key == pre.entries@[e].key);
        }
    }
    let iq = choose|i: int|
        0 <= i < post.entries@.len() && (#[trigger] post.entries@[i]).key == key;
    assert(iq == e) by {
        if iq != e {
            assert(post.entries@[iq].key == post.entries@[e].key);
        }
    }
    let old_ts = pre.entries@[e].type_ids@.map_values(|id: usize| (pre.types@[id as int])@);
    let ts = post.entries@[e].type_ids@.map_values(|id: usize| (post.types@[id as int])@);
    assert(ts =~= old_ts.push((pre.types@[ti as int])@));
    // The string of a fresh position cannot already be said: positions are
    // distinct and the catalogue holds no duplicates.
    assert(!old_ts.contains((pre.types@[ti as int])@)) by {
        if old_ts.contains((pre.types@[ti as int])@) {
            let b = choose|b: int| 0 <= b < old_ts.len() && old_ts[b] == (pre.types@[ti as int])@;
            let idb = pre.entries@[e].type_ids@[b];
            assert((pre.types@[idb as int])@ == (pre.types@[ti as int])@);
            if idb != ti {
                if idb < ti {
                    assert((pre.types@[idb as int])@ != (pre.types@[ti as int])@);
                } else {
                    assert((pre.types@[ti as int])@ != (pre.types@[idb as int])@);
                }
            }
        }
    }
    assert forall|k2: u64| k2 != key implies #[trigger] post.spec_get(k2) == pre.spec_get(k2) by {
        assert(post.has_key(k2) == pre.has_key(k2)) by {
            if pre.has_key(k2) {
                let i = choose|i: int|
                    0 <= i < pre.entries@.len() && (#[trigger] pre.entries@[i]).key == k2;
                assert(i != e);
                assert(post.entries@[i].key == k2);
            }
            if post.has_key(k2) {
                let i = choose|i: int|
                    0 <= i < post.entries@.len() && (#[trigger] post.entries@[i]).key == k2;
                assert(i != e);
                assert(pre.entries@[i].key == k2);
            }
        }
        if pre.has_key(k2) {
            let i1 = choose|i: int|
                0 <= i < pre.entries@.len() && (#[trigger] pre.entries@[i]).key == k2;
            let i2 = choose|i: int|
                0 <= i < post.entries@.len() && (#[trigger] post.entries@[i]).key == k2;
            assert(i1 != e && i2 != e);
            assert(i1 == i2) by {
                if i1 != i2 {
                    assert(post.entries@[i1].key == post.entries@[i2].key);
                }
            }
            assert(post.spec_get(k2) matches Some(a2) && pre.spec_get(k2) matches Some(a1) && a1
                =~= a2);
        }
    }
}

/// Filing a fresh key appends one entry holding only the type's position.
proof fn lemma_insert_new_key(pre: TypeIndex, post: TypeIndex, key: u64, ti: usize)
    requires
        pre.wf(),
        forall|j: int| 0 <= j < pre.entries@.len() ==> (#[trigger] pre.entries@[j]).key != key,
        ti < pre.types@.len(),
        post.types@ == pre.types@,
        post.entries@.len() == pre.entries@.len() + 1,
        post.entries@[pre.entries@.len() as int].key == key,
        post.entries@[pre.entries@.len() as int].type_ids@ == seq![ti],
        forall|j: int|
            0 <= j < pre.entries@.len() ==> #[trigger] post.entries@[j] == pre.entries@[j],
    ensures
        post.wf(),
        pre.spec_get(key) is None,
        post.spec_get(key) matches Some(ts) && ts == seq![(pre.types@[ti as int])@],
        forall|k2: u64| k2 != key ==> #[trigger] post.spec_get(k2) == pre.spec_get(k2),
{
    let e = pre.entries@.len() as int;
    assert(post.has_key(key));
    let iq = choose|i: int|
        0 <= i < post.entries@.len() && (#[trigger] post.entries@[i]).key == key;
    assert(iq == e) by {
        if iq != e {
            assert(pre.entries@[iq].key == post.entries@[iq].key);
        }
    }
    let ts = post.entries@[e].type_ids@.map_values(|id: usize| (post.types@[id as int])@);
    assert(ts =~= seq![(pre.types@[ti as int])@]);
    assert forall|k2: u64| k2 != key implies #[trigger] post.spec_get(k2) == pre.spec_get(k2) by {
        assert(post.has_key(k2) == pre.has_key(k2)) by {
            if post.has_key(k2) {
                let i2 = choose|i: int|
                    0 <= i < post.entries@.len() && (#[trigger] post.entries@[i]).key == k2;
                assert(i2 != e);
                assert(pre.entries@[i2].key == k2);
            }
            if pre.has_key(k2) {
                let i1 = choose|i: int|
                    0 <= i < pre.entries@.len() && (#[trigger] pre.entries@[i]).key == k2;
                assert(post.entries@[i1].key == k2);
            }
        }
        if pre.has_key(k2) {
            let i1 = choose|i: int|
                0 <= i < pre.entries@.len() && (#[trigger] pre.entries@[i]).key == k2;
            let i2 = choose|i: int|
                0 <= i < post.entries@.len() && (#[trigger] post.entries@[i]).key == k2;
            assert(i2 != e);
            assert(i1 == i2) by {
                if i1 != i2 {
                    assert(post.entries@[i1].key == post.entries@[i2].key);
                }
            }
            assert(post.spec_get(k2) matches Some(a2) && pre.spec_get(k2) matches Some(a1) && a1
                =~= a2);
        }
    }
}


/// The digit character for a value below ten.
pub open spec fn digit_char(d: nat) -> char {
    if d == 0 {
        '0'
    } else if d == 1 {
        '1'
    } else if d == 2 {
        '2'
    } else if d == 3 {
        '3'
    } else if d == 4 {
        '4'
    } else if d == 5 {
        '5'
    } else if d == 6 {
        '6'
    } else if d == 7 {
        '7'
    } else if d == 8 {
        '8'
    } else {
        '9'
    }
}

/// The numeric value of a digit character, or nothing for any other.
pub open spec fn char_digit(c: char) -> Option<nat> {
    if c == '0' {
        Some(0 as nat)
    } else if c == '1' {
        Some(1 as nat)
    } else if c == '2' {
        Some(2 as nat)
    } else if c == '3' {
        Some(3 as nat)
    } else if c == '4' {
        Some(4 as nat)
    } else if c == '5' {
        Some(5 as nat)
    } else if c == '6' {
        Some(6 as nat)
    } else if c == '7' {
        Some(7 as nat)
    } else if c == '8' {
        Some(8 as nat)
    } else if c == '9' {
        Some(9 as nat)
    } else {
        None
    }
}

/// The decimal digits of `n`, most significant first.
pub open spec fn dec_digits(n: nat) -> Seq<char>
    decreases n,
{
    if n < 10 {
        seq![digit_char(n)]
    } else {
        dec_digits(n / 10).push(digit_char(n % 10))
    }
}

/// A number in the persisted form: its digits closed by a semicolon.
pub open spec fn enc_nat(n: nat) -> Seq<char> {
    dec_digits(n) + seq![';']
}

/// A string in the persisted form: its length, then its characters.
pub open spec fn enc_str(t: Seq<char>) -> Seq<char> {
    enc_nat(t.len()) + t
}

/// A list of strings in the persisted form, one after the other.
pub open spec fn enc_strs(ts: Seq<Seq<char>>) -> Seq<char>
    decreases ts.len(),
{
    if ts.len() == 0 {
        Seq::empty()
    } else {
        enc_str(ts[0]) + enc_strs(ts.drop_first())
    }
}

/// A list of numbers in the persisted form, one after the other.
pub open spec fn enc_nats(ids: Seq<nat>) -> Seq<char>
    decreases ids.len(),
{
    if ids.len() == 0 {
        Seq::empty()
    } else {
        enc_nat(ids[0]) + enc_nats(ids.drop_first())
    }
}

/// One subject entry in the persisted form: its key, the count of its
/// positions, then the positions.
pub open spec fn enc_entry(e: (u64, Seq<nat>)) -> Seq<char> {
    enc_nat(e.0 as nat) + enc_nat(e.1.len()) + enc_nats(e.1)
}

/// A list of entries in the persisted form.
pub open spec fn enc_entries(es: Seq<(u64, Seq<nat>)>) -> Seq<char>
    decreases es.len(),
{
    if es.len() == 0 {
        Seq::empty()
    } else {
        enc_entry(es[0]) + enc_entries(es.drop_first())
    }
}

/// The persisted content of an index: its type catalogue and its keyed
/// entries, with positions as plain numbers.
pub open spec fn spec_model(idx: TypeIndex) -> (Seq<Seq<char>>, Seq<(u64, Seq<nat>)>) {
    (
        idx.types@.map_values(|t: String| t@),
        idx.entries@.map_values(
            |e: IndexEntry| (e.key, e.type_ids@.map_values(|id: usize| id as nat)),
        ),
    )
}

/// The whole persisted form: catalogue count and strings, then entry
/// count and entries.
pub open spec fn enc_model(m: (Seq<Seq<char>>, Seq<(u64, Seq<nat>)>)) -> Seq<char> {
    enc_nat(m.0.len()) + enc_strs(m.0) + enc_nat(m.1.len()) + enc_entries(m.1)
}

/// Reads digits from `pos` on, accumulating their value onto `acc`, until
/// the closing semicolon; fails on any other character, at the end of the
/// text, or when the value would no longer fit 64 bits.
pub open spec fn parse_nat_rec(s: Seq<char>, pos: int, acc: nat) -> Option<(nat, int)>
    decreases s.len() - pos,
{
    if pos < 0 || pos >= s.len() {
        None
    } else if s[pos] == ';' {
        Some((acc, pos + 1))
    } else {
        match char_digit(s[pos]) {
            Some(d) => if acc * 10 + d <= u64::MAX as nat {
                parse_nat_rec(s, pos + 1, acc * 10 + d)
            } else {
                None
            },
            None => None,
        }
    }
}

/// Reads one number closed by a semicolon.
pub open spec fn parse_nat(s: Seq<char>, pos: int) -> Option<(nat, int)> {
    parse_nat_rec(s, pos, 0)
}

/// Reads one length-prefixed string.
pub open spec fn parse_str(s: Seq<char>, pos: int) -> Option<(Seq<char>, int)> {
    match parse_nat(s, pos) {
        Some((len, p)) => if p + len <= s.len() {
            Some((s.subrange(p, p + len), p + len))
        } else {
            None
        },
        None => None,
    }
}

/// Reads `count` length-prefixed strings.
pub open spec fn parse_strs(s: Seq<char>, pos: int, count: nat) -> Option<(Seq<Seq<char>>, int)>
    decreases count,
{
    if count == 0 {
        Some((Seq::empty(), pos))
    } else {
        match parse_str(s, pos) {
            Some((t, p)) => match parse_strs(s, p, (count - 1) as nat) {
                Some((ts, q)) => Some((seq![t] + ts, q)),
                None => None,
            },
            None => None,
        }
    }
}

/// Reads `count` numbers.
pub open spec fn parse_nats(s: Seq<char>, pos: int, count: nat) -> Option<(Seq<nat>, int)>
    decreases count,
{
    if count == 0 {
        Some((Seq::empty(), pos))
    } else {
        match parse_nat(s, pos) {
            Some((v, p)) => match parse_nats(s, p, (count - 1) as nat) {
                Some((vs, q)) => Some((seq![v] + vs, q)),
                None => None,
            },
            None => None,
        }
    }
}

/// Reads one entry: key, count of positions, positions.
pub open spec fn parse_entry(s: Seq<char>, pos: int) -> Option<((u64, Seq<nat>), int)> {
    match parse_nat(s, pos) {
        Some((key, p)) => match parse_nat(s, p) {
            Some((cnt, q)) => match parse_nats(s, q, cnt) {
                Some((ids, r)) => Some(((key as u64, ids), r)),
                None => None,
            },
            None => None,
        },
        None => None,
    }
}

/// Reads `count` entries.
pub open spec fn parse_entries(s: Seq<char>, pos: int, count: nat) -> Option<
    (Seq<(u64, Seq<nat>)>, int),
>
    decreases count,
{
    if count == 0 {
        Some((Seq::empty(), pos))
    } else {
        match parse_entry(s, pos) {
            Some((e, p)) => match parse_entries(s, p, (count - 1) as nat) {
                Some((es, q)) => Some((seq![e] + es, q)),
                None => None,
            },
            None => None,
        }
    }
}

/// Reads a whole persisted index; the text must hold nothing else.
pub open spec fn spec_decode(s: Seq<char>) -> Option<(Seq<Seq<char>>, Seq<(u64, Seq<nat>)>)> {
    match parse_nat(s, 0) {
        Some((tn, p)) => match parse_strs(s, p, tn) {
            Some((ts, q)) => match parse_nat(s, q) {
                Some((en, r)) => match parse_entries(s, r, en) {
                    Some((es, end)) => if end == s.len() {
                        Some((ts, es))
                    } else {
                        None
                    },
                    None => None,
                },
                None => None,
            },
            None => None,
        },
        None => None,
    }
}

/// Is this persisted content one that a well-formed index can hold: no
/// duplicate catalogue string, no duplicate key, and every entry's
/// positions distinct and inside the catalogue?
pub open spec fn model_valid(m: (Seq<Seq<char>>, Seq<(u64, Seq<nat>)>)) -> bool {
    &&& forall|i: int, j: int| 0 <= i < j < m.0.len() ==> (#[trigger] m.0[i]) != (#[trigger] m.0[j])
    &&& forall|i: int, j: int|
        0 <= i < j < m.1.len() ==> (#[trigger] m.1[i]).0 != (#[trigger] m.1[j]).0
    &&& forall|e: int|
        0 <= e < m.1.len() ==> (forall|a: int|
            0 <= a < (#[trigger] m.1[e]).1.len() ==> (#[trigger] m.1[e].1[a]) < m.0.len())
    &&& forall|e: int, a: int, b: int|
        0 <= e < m.1.len() && 0 <= a < b < m.1[e].1.len() ==> (#[trigger] m.1[e].1[a]) != (
        #[trigger] m.1[e].1[b])
}


/// The value of a digit sequence read left to right onto `acc`.
pub open spec fn digits_value(ds: Seq<char>, acc: nat) -> nat
    decreases ds.len(),
{
    if ds.len() == 0 {
        acc
    } else {
        match char_digit(ds[0]) {
            Some(d) => digits_value(ds.drop_first(), acc * 10 + d),
            None => digits_value(ds.drop_first(), acc),
        }
    }
}

/// Every character of `dec_digits(n)` is a digit, and there is at least
/// one.
proof fn lemma_dec_digits_are_digits(n: nat)
    ensures
        dec_digits(n).len() >= 1,
        forall|i: int|
            0 <= i < dec_digits(n).len() ==> char_digit(#[trigger] dec_digits(n)[i]) is Some,
    decreases n,
{
    if n < 10 {
        assert(char_digit(digit_char(n)) is Some);
    } else {
        lemma_dec_digits_are_digits(n / 10);
        assert(char_digit(digit_char(n % 10)) is Some);
        assert forall|i: int|
            0 <= i < dec_digits(n).len() implies char_digit(#[trigger] dec_digits(n)[i])
            is Some by {
            if i < dec_digits(n / 10).len() {
                assert(dec_digits(n)[i] == dec_digits(n / 10)[i]);
            } else {
                assert(dec_digits(n)[i] == digit_char(n % 10));
            }
        }
    }
}

/// Reading digits never lowers the accumulated value.
proof fn lemma_digits_value_lower(ds: Seq<char>, acc: nat)
    ensures
        digits_value(ds, acc) >= acc,
    decreases ds.len(),
{
    if ds.len() == 0 {
    } else {
        match char_digit(ds[0]) {
            Some(d) => {
                lemma_digits_value_lower(ds.drop_first(), acc * 10 + d);
            },
            None => {
                lemma_digits_value_lower(ds.drop_first(), acc);
            },
        }
    }
}

/// Reading one more digit multiplies the value read so far by ten and
/// adds it.
proof fn lemma_digits_value_snoc(ds: Seq<char>, c: char, acc: nat)
    requires
        char_digit(c) is Some,
        forall|i: int| 0 <= i < ds.len() ==> char_digit(#[trigger] ds[i]) is Some,
    ensures
        ({
            let d = match char_digit(c) {
                Some(d) => d,
                None => 0,
            };
            digits_value(ds.push(c), acc) == digits_value(ds, acc) * 10 + d
        }),
    decreases ds.len(),
{
    let d = match char_digit(c) {
        Some(d) => d,
        None => 0,
    };
    if ds.len() == 0 {
        assert(ds.push(c)[0] == c);
        assert(ds.push(c).drop_first() =~= Seq::<char>::empty());
        assert(digits_value(Seq::<char>::empty(), acc * 10 + d) == acc * 10 + d);
        assert(digits_value(ds.push(c), acc) == acc * 10 + d);
        assert(digits_value(ds, acc) == acc);
    } else {
        let d0 = match char_digit(ds[0]) {
            Some(d) => d,
            None => 0,
        };
        assert(ds.push(c)[0] == ds[0]);
        assert(ds.push(c).drop_first() =~= ds.drop_first().push(c));
        assert(forall|i: int|
            0 <= i < ds.drop_first().len() ==> char_digit(#[trigger] ds.drop_first()[i]) is Some);
        lemma_digits_value_snoc(ds.drop_first(), c, acc * 10 + d0);
        assert(digits_value(ds.push(c), acc) == digits_value(
            ds.drop_first().push(c),
            acc * 10 + d0,
        ));
        assert(digits_value(ds, acc) == digits_value(ds.drop_first(), acc * 10 + d0));
    }
}

/// The digits of `n` read back onto zero give `n`.
proof fn lemma_digits_value_dec(n: nat)
    ensures
        digits_value(dec_digits(n), 0) == n,
    decreases n,
{
    if n < 10 {
        assert(char_digit(digit_char(n)) == Some(n));
        assert(dec_digits(n) == seq![digit_char(n)]);
        assert(dec_digits(n)[0] == digit_char(n));
        assert(dec_digits(n).drop_first() =~= Seq::<char>::empty());
        assert(digits_value(Seq::<char>::empty(), n) == n);
        assert(digits_value(dec_digits(n), 0) == digits_value(dec_digits(n).drop_first(), 0 * 10 + n));
    } else {
        lemma_digits_value_dec(n / 10);
        lemma_dec_digits_are_digits(n / 10);
        assert(char_digit(digit_char(n % 10)) == Some(n % 10));
        lemma_digits_value_snoc(dec_digits(n / 10), digit_char(n % 10), 0);
        assert(digits_value(dec_digits(n), 0) == (n / 10) * 10 + n % 10);
        assert((n / 10) * 10 + n % 10 == n) by {
            vstd::arithmetic::div_mod::lemma_fundamental_div_mod(n as int, 10);
        }
    }
}

/// Reading a region of digits closed by a semicolon yields the region's
/// value, provided it fits 64 bits.
proof fn lemma_parse_digits(s: Seq<char>, pos: int, k: int, acc: nat)
    requires
        0 <= pos,
        0 <= k,
        pos + k < s.len(),
        forall|j: int| pos <= j < pos + k ==> char_digit(#[trigger] s[j]) is Some,
        s[pos + k] == ';',
        digits_value(s.subrange(pos, pos + k), acc) <= u64::MAX as nat,
    ensures
        parse_nat_rec(s, pos, acc) == Some(
            (digits_value(s.subrange(pos, pos + k), acc), pos + k + 1),
        ),
    decreases k,
{
    let region = s.subrange(pos, pos + k);
    if k == 0 {
        assert(region.len() == 0);
        assert(s[pos] == ';');
    } else {
        assert(char_digit(s[pos]) is Some);
        assert(s[pos] != ';') by {
            assert(char_digit(';') is None);
        }
        let d = match char_digit(s[pos]) {
            Some(d) => d,
            None => 0,
        };
        let rest = s.subrange(pos + 1, pos + k);
        assert(region[0] == s[pos]);
        assert(region.drop_first() =~= rest);
        assert(digits_value(region, acc) == digits_value(rest, acc * 10 + d));
        lemma_digits_value_lower(rest, acc * 10 + d);
        lemma_parse_digits(s, pos + 1, k - 1, acc * 10 + d);
    }
}

/// Reading an encoded number back gives the number and stops after its
/// semicolon.
proof fn lemma_parse_enc_nat(s: Seq<char>, pos: int, n: nat)
    requires
        0 <= pos,
        n <= u64::MAX as nat,
        pos + enc_nat(n).len() <= s.len(),
        s.subrange(pos, pos + enc_nat(n).len() as int) == enc_nat(n),
    ensures
        parse_nat(s, pos) == Some((n, pos + enc_nat(n).len() as int)),
{
    let k = dec_digits(n).len() as int;
    lemma_dec_digits_are_digits(n);
    assert forall|j: int| pos <= j < pos + k implies char_digit(#[trigger] s[j]) is Some by {
        assert(s[j] == enc_nat(n)[j - pos]);
        assert(enc_nat(n)[j - pos] == dec_digits(n)[j - pos]);
    }
    assert(s[pos + k] == enc_nat(n)[k]);
    assert(enc_nat(n)[k] == ';');
    assert(s.subrange(pos, pos + k) =~= dec_digits(n));
    lemma_digits_value_dec(n);
    lemma_parse_digits(s, pos, k, 0);
}


/// A region that holds a concatenation splits into its two parts.
proof fn lemma_subrange_split(s: Seq<char>, pos: int, a: Seq<char>, b: Seq<char>)
    requires
        0 <= pos,
        pos + a.len() + b.len() <= s.len(),
        s.subrange(pos, pos + a.len() + b.len()) == a + b,
    ensures
        s.subrange(pos, pos + a.len() as int) == a,
        s.subrange(pos + a.len() as int, pos + a.len() + b.len()) == b,
{
    let whole = s.subrange(pos, pos + a.len() + b.len());
    assert forall|i: int| 0 <= i < a.len() implies #[trigger] s.subrange(
        pos,
        pos + a.len() as int,
    )[i] == a[i] by {
        assert(whole[i] == (a + b)[i]);
    }
    assert(s.subrange(pos, pos + a.len() as int) =~= a);
    assert forall|i: int| 0 <= i < b.len() implies #[trigger] s.subrange(
        pos + a.len() as int,
        pos + a.len() + b.len(),
    )[i] == b[i] by {
        assert(whole[a.len() + i] == (a + b)[a.len() + i]);
    }
    assert(s.subrange(pos + a.len() as int, pos + a.len() + b.len()) =~= b);
}

/// Reading an encoded string back gives the string.
proof fn lemma_parse_enc_str(s: Seq<char>, pos: int, t: Seq<char>)
    requires
        0 <= pos,
        t.len() <= u64::MAX as nat,
        pos + enc_str(t).len() <= s.len(),
        s.subrange(pos, pos + enc_str(t).len() as int) == enc_str(t),
    ensures
        parse_str(s, pos) == Some((t, pos + enc_str(t).len() as int)),
{
    lemma_subrange_split(s, pos, enc_nat(t.len()), t);
    lemma_parse_enc_nat(s, pos, t.len());
}

/// Reading back a list of encoded strings gives the list.
proof fn lemma_parse_enc_strs(s: Seq<char>, pos: int, ts: Seq<Seq<char>>)
    requires
        0 <= pos,
        forall|i: int| 0 <= i < ts.len() ==> (#[trigger] ts[i]).len() <= u64::MAX as nat,
        pos + enc_strs(ts).len() <= s.len(),
        s.subrange(pos, pos + enc_strs(ts).len() as int) == enc_strs(ts),
    ensures
        parse_strs(s, pos, ts.len()) == Some((ts, pos + enc_strs(ts).len() as int)),
    decreases ts.len(),
{
    if ts.len() == 0 {
        assert(parse_strs(s, pos, 0) == Some((Seq::<Seq<char>>::empty(), pos)));
        assert(ts =~= Seq::<Seq<char>>::empty());
    } else {
        let head = enc_str(ts[0]);
        let tail = enc_strs(ts.drop_first());
        lemma_subrange_split(s, pos, head, tail);
        lemma_parse_enc_str(s, pos, ts[0]);
        assert(forall|i: int|
            0 <= i < ts.drop_first().len() ==> (#[trigger] ts.drop_first()[i]).len()
                <= u64::MAX as nat);
        lemma_parse_enc_strs(s, pos + head.len() as int, ts.drop_first());
        assert(seq![ts[0]] + ts.drop_first() =~= ts);
    }
}

/// Reading back a list of encoded numbers gives the list.
proof fn lemma_parse_enc_nats(s: Seq<char>, pos: int, ids: Seq<nat>)
    requires
        0 <= pos,
        forall|i: int| 0 <= i < ids.len() ==> (#[trigger] ids[i]) <= u64::MAX as nat,
        pos + enc_nats(ids).len() <= s.len(),
        s.subrange(pos, pos + enc_nats(ids).len() as int) == enc_nats(ids),
    ensures
        parse_nats(s, pos, ids.len()) == Some((ids, pos + enc_nats(ids).len() as int)),
    decreases ids.len(),
{
    if ids.len() == 0 {
        assert(ids =~= Seq::<nat>::empty());
    } else {
        let head = enc_nat(ids[0]);
        let tail = enc_nats(ids.drop_first());
        lemma_subrange_split(s, pos, head, tail);
        lemma_parse_enc_nat(s, pos, ids[0]);
        lemma_parse_enc_nats(s, pos + head.len() as int, ids.drop_first());
        assert(seq![ids[0]] + ids.drop_first() =~= ids);
    }
}

/// Reading back an encoded entry gives the entry.
proof fn lemma_parse_enc_entry(s: Seq<char>, pos: int, e: (u64, Seq<nat>))
    requires
        0 <= pos,
        e.1.len() <= u64::MAX as nat,
        forall|i: int| 0 <= i < e.1.len() ==> (#[trigger] e.1[i]) <= u64::MAX as nat,
        pos + enc_entry(e).len() <= s.len(),
        s.subrange(pos, pos + enc_entry(e).len() as int) == enc_entry(e),
    ensures
        parse_entry(s, pos) == Some((e, pos + enc_entry(e).len() as int)),
{
    let a = enc_nat(e.0 as nat);
    let b = enc_nat(e.1.len());
    let c = enc_nats(e.1);
    assert(enc_entry(e) =~= a + (b + c));
    lemma_subrange_split(s, pos, a, b + c);
    lemma_subrange_split(s, pos + a.len() as int, b, c);
    lemma_parse_enc_nat(s, pos, e.0 as nat);
    lemma_parse_enc_nat(s, pos + a.len() as int, e.1.len());
    lemma_parse_enc_nats(s, pos + a.len() + b.len() as int, e.1);
}

/// Reading back a list of encoded entries gives the list.
proof fn lemma_parse_enc_entries(s: Seq<char>, pos: int, es: Seq<(u64, Seq<nat>)>)
    requires
        0 <= pos,
        forall|i: int| 0 <= i < es.len() ==> (#[trigger] es[i]).1.len() <= u64::MAX as nat,
        forall|i: int, j: int|
            0 <= i < es.len() && 0 <= j < es[i].1.len() ==> (#[trigger] es[i].1[j])
                <= u64::MAX as nat,
        pos + enc_entries(es).len() <= s.len(),
        s.subrange(pos, pos + enc_entries(es).len() as int) == enc_entries(es),
    ensures
        parse_entries(s, pos, es.len()) == Some((es, pos + enc_entries(es).len() as int)),
    decreases es.len(),
{
    if es.len() == 0 {
        assert(es =~= Seq::<(u64, Seq<nat>)>::empty());
    } else {
        let head = enc_entry(es[0]);
        let tail = enc_entries(es.drop_first());
        lemma_subrange_split(s, pos, head, tail);
        lemma_parse_enc_entry(s, pos, es[0]);
        assert(forall|i: int, j: int|
            0 <= i < es.drop_first().len() && 0 <= j < es.drop_first()[i].1.len() ==> (
            #[trigger] es.drop_first()[i].1[j]) <= u64::MAX as nat);
        lemma_parse_enc_entries(s, pos + head.len() as int, es.drop_first());
        assert(seq![es[0]] + es.drop_first() =~= es);
    }
}

/// Are all counts, lengths and positions of this persisted content small
/// enough for the number format?
pub open spec fn model_bounded(m: (Seq<Seq<char>>, Seq<(u64, Seq<nat>)>)) -> bool {
    &&& m.0.len() <= u64::MAX as nat
    &&& m.1.len() <= u64::MAX as nat
    &&& forall|i: int| 0 <= i < m.0.len() ==> (#[trigger] m.0[i]).len() <= u64::MAX as nat
    &&& forall|i: int| 0 <= i < m.1.len() ==> (#[trigger] m.1[i]).1.len() <= u64::MAX as nat
    &&& forall|i: int, j: int|
        0 <= i < m.1.len() && 0 <= j < m.1[i].1.len() ==> (#[trigger] m.1[i].1[j])
            <= u64::MAX as nat
}

/// Law: the persisted form round-trips exactly. Decoding what a bounded
/// content encodes succeeds and yields the content itself.
pub proof fn lemma_decode_encode(m: (Seq<Seq<char>>, Seq<(u64, Seq<nat>)>))
    requires
        model_bounded(m),
    ensures
        spec_decode(enc_model(m)) == Some(m),
{
    let s = enc_model(m);
    let a = enc_nat(m.0.len());
    let b = enc_strs(m.0);
    let c = enc_nat(m.1.len());
    let d = enc_entries(m.1);
    assert(s =~= a + (b + (c + d)));
    assert(s.subrange(0, s.len() as int) =~= s);
    lemma_subrange_split(s, 0, a, b + (c + d));
    lemma_subrange_split(s, a.len() as int, b, c + d);
    lemma_subrange_split(s, a.len() + b.len() as int, c, d);
    lemma_parse_enc_nat(s, 0, m.0.len());
    lemma_parse_enc_strs(s, a.len() as int, m.0);
    lemma_parse_enc_nat(s, a.len() + b.len() as int, m.1.len());
    lemma_parse_enc_entries(s, a.len() + b.len() + c.len() as int, m.1);
}

/// Law: an index is determined by its persisted content. Two well-formed
/// indexes with the same content answer every key alike, so reading the
/// persisted form back preserves every answer.
pub proof fn lemma_same_model_same_get(a: TypeIndex, b: TypeIndex)
    requires
        a.wf(),
        spec_model(a) == spec_model(b),
    ensures
        b.wf(),
        forall|k: u64| #[trigger] a.spec_get(k) == b.spec_get(k),
{
    let ma = spec_model(a);
    let mb = spec_model(b);
    assert(ma == mb);
    assert(ma.0 == mb.0 && ma.1 == mb.1);
    assert(ma.0.len() == a.types@.len() && mb.0.len() == b.types@.len());
    assert(ma.1.len() == a.entries@.len() && mb.1.len() == b.entries@.len());
    assert(a.types@.len() == b.types@.len());
    assert(a.entries@.len() == b.entries@.len());
    assert forall|i: int| 0 <= i < a.types@.len() implies (#[trigger] a.types@[i])@ == (
    b.types@[i])@ by {
        assert(ma.0[i] == mb.0[i]);
        assert(ma.0[i] == (a.types@[i])@);
        assert(mb.0[i] == (b.types@[i])@);
    }
    assert forall|i: int|
        0 <= i < a.entries@.len() implies (#[trigger] a.entries@[i]).key == b.entries@[i].key && a
        .entries@[i].type_ids@.len() == b.entries@[i].type_ids@.len() by {
        assert(ma.1[i] == mb.1[i]);
        assert(ma.1[i].0 == a.entries@[i].key);
        assert(mb.1[i].0 == b.entries@[i].key);
        assert(ma.1[i].1.len() == a.entries@[i].type_ids@.len());
        assert(mb.1[i].1.len() == b.entries@[i].type_ids@.len());
    }
    assert forall|i: int, j: int|
        0 <= i < a.entries@.len() && 0 <= j < a.entries@[i].type_ids@.len() implies (
    #[trigger] a.entries@[i].type_ids@[j]) == b.entries@[i].type_ids@[j] by {
        assert(ma.1[i] == mb.1[i]);
        assert(ma.1[i].1.len() == a.entries@[i].type_ids@.len());
        assert(mb.1[i].1.len() == b.entries@[i].type_ids@.len());
        assert(ma.1[i].1[j] == mb.1[i].1[j]);
        assert(ma.1[i].1[j] == a.entries@[i].type_ids@[j] as nat);
        assert(mb.1[i].1[j] == b.entries@[i].type_ids@[j] as nat);
    }
    assert forall|i: int, j: int|
        0 <= i < j < b.types@.len() implies (#[trigger] b.types@[i])@ != (#[trigger] b.types@[
    j])@ by {
        assert((a.types@[i])@ == (b.types@[i])@);
        assert((a.types@[j])@ == (b.types@[j])@);
    }
    assert forall|i: int, j: int|
        0 <= i < j < b.entries@.len() implies (#[trigger] b.entries@[i]).key != (
    #[trigger] b.entries@[j]).key by {
        assert(a.entries@[i].key == b.entries@[i].key);
        assert(a.entries@[j].key == b.entries@[j].key);
    }
    assert forall|e: int|
        0 <= e < b.entries@.len() implies (forall|x: int|
        0 <= x < (#[trigger] b.entries@[e]).type_ids@.len() ==> (#[trigger] b.entries@[
        e].type_ids@[x]) < b.types@.len()) by {
        assert forall|x: int|
            0 <= x < b.entries@[e].type_ids@.len() implies (#[trigger] b.entries@[e].type_ids@[x])
            < b.types@.len() by {
            assert(a.entries@[e].type_ids@[x] == b.entries@[e].type_ids@[x]);
            assert(a.entries@[e].type_ids@[x] < a.types@.len());
        }
    }
    assert forall|e: int, x: int, y: int|
        0 <= e < b.entries@.len() && 0 <= x < y < b.entries@[e].type_ids@.len() implies (
    #[trigger] b.entries@[e].type_ids@[x]) != (#[trigger] b.entries@[e].type_ids@[y]) by {
        assert(a.entries@[e].type_ids@[x] == b.entries@[e].type_ids@[x]);
        assert(a.entries@[e].type_ids@[y] == b.entries@[e].type_ids@[y]);
        assert(a.entries@[e].type_ids@[x] != a.entries@[e].type_ids@[y]);
    }
    assert(b.wf());
    assert forall|k: u64| #[trigger] a.spec_get(k) == b.spec_get(k) by {
        assert(a.has_key(k) == b.has_key(k)) by {
            if a.has_key(k) {
                let i = choose|i: int|
                    0 <= i < a.entries@.len() && (#[trigger] a.entries@[i]).key == k;
                assert(b.entries@[i].key == k);
            }
            if b.has_key(k) {
                let i = choose|i: int|
                    0 <= i < b.entries@.len() && (#[trigger] b.entries@[i]).key == k;
                assert(a.entries@[i].key == k);
            }
        }
        if a.has_key(k) {
            let ia = choose|i: int|
                0 <= i < a.entries@.len() && (#[trigger] a.entries@[i]).key == k;
            let ib = choose|i: int|
                0 <= i < b.entries@.len() && (#[trigger] b.entries@[i]).key == k;
            assert(ia == ib) by {
                if ia != ib {
                    assert(a.entries@[ia].key == a.entries@[ib].key);
                }
            }
            assert(a.spec_get(k) matches Some(ta) && b.spec_get(k) matches Some(tb) && ta =~= tb);
        }
    }
}


/// Encoding one more string appends its encoding.
proof fn lemma_enc_strs_snoc(ts: Seq<Seq<char>>, x: Seq<char>)
    ensures
        enc_strs(ts.push(x)) == enc_strs(ts) + enc_str(x),
    decreases ts.len(),
{
    if ts.len() == 0 {
        assert(ts.push(x)[0] == x);
        assert(ts.push(x).drop_first() =~= Seq::<Seq<char>>::empty());
        assert(enc_strs(Seq::<Seq<char>>::empty()) =~= Seq::<char>::empty());
        assert(enc_str(x) + Seq::<char>::empty() =~= enc_str(x));
        assert(enc_strs(ts.push(x)) =~= enc_str(x));
        assert(enc_strs(ts) + enc_str(x) =~= enc_str(x));
    } else {
        assert(ts.push(x)[0] == ts[0]);
        assert(ts.push(x).drop_first() =~= ts.drop_first().push(x));
        lemma_enc_strs_snoc(ts.drop_first(), x);
        assert(enc_str(ts[0]) + (enc_strs(ts.drop_first()) + enc_str(x)) =~= enc_str(ts[0])
            + enc_strs(ts.drop_first()) + enc_str(x));
    }
}

/// Encoding one more number appends its encoding.
proof fn lemma_enc_nats_snoc(ids: Seq<nat>, x: nat)
    ensures
        enc_nats(ids.push(x)) == enc_nats(ids) + enc_nat(x),
    decreases ids.len(),
{
    if ids.len() == 0 {
        assert(ids.push(x)[0] == x);
        assert(ids.push(x).drop_first() =~= Seq::<nat>::empty());
        assert(enc_nats(Seq::<nat>::empty()) =~= Seq::<char>::empty());
        assert(enc_nat(x) + Seq::<char>::empty() =~= enc_nat(x));
        assert(enc_nats(ids.push(x)) =~= enc_nat(x));
        assert(enc_nats(ids) + enc_nat(x) =~= enc_nat(x));
    } else {
        assert(ids.push(x)[0] == ids[0]);
        assert(ids.push(x).drop_first() =~= ids.drop_first().push(x));
        lemma_enc_nats_snoc(ids.drop_first(), x);
        assert(enc_nat(ids[0]) + (enc_nats(ids.drop_first()) + enc_nat(x)) =~= enc_nat(ids[0])
            + enc_nats(ids.drop_first()) + enc_nat(x));
    }
}

/// Encoding one more entry appends its encoding.
proof fn lemma_enc_entries_snoc(es: Seq<(u64, Seq<nat>)>, x: (u64, Seq<nat>))
    ensures
        enc_entries(es.push(x)) == enc_entries(es) + enc_entry(x),
    decreases es.len(),
{
    if es.len() == 0 {
        assert(es.push(x)[0] == x);
        assert(es.push(x).drop_first() =~= Seq::<(u64, Seq<nat>)>::empty());
        assert(enc_entries(Seq::<(u64, Seq<nat>)>::empty()) =~= Seq::<char>::empty());
        assert(enc_entry(x) + Seq::<char>::empty() =~= enc_entry(x));
        assert(enc_entries(es.push(x)) =~= enc_entry(x));
        assert(enc_entries(es) + enc_entry(x) =~= enc_entry(x));
    } else {
        assert(es.push(x)[0] == es[0]);
        assert(es.push(x).drop_first() =~= es.drop_first().push(x));
        lemma_enc_entries_snoc(es.drop_first(), x);
        assert(enc_entry(es[0]) + (enc_entries(es.drop_first()) + enc_entry(x)) =~= enc_entry(
            es[0],
        ) + enc_entries(es.drop_first()) + enc_entry(x));
    }
}

/// Appends one digit character.
fn push_digit(out: &mut String, d: u64)
    requires
        d < 10,
    ensures
        final(out)@ == old(out)@ + seq![digit_char(d as nat)],
{
    proof {
        reveal_strlit("0");
        reveal_strlit("1");
        reveal_strlit("2");
        reveal_strlit("3");
        reveal_strlit("4");
        reveal_strlit("5");
        reveal_strlit("6");
        reveal_strlit("7");
        reveal_strlit("8");
        reveal_strlit("9");
    }
    if d == 0 {
        out.append("0");
    } else if d == 1 {
        out.append("1");
    } else if d == 2 {
        out.append("2");
    } else if d == 3 {
        out.append("3");
    } else if d == 4 {
        out.append("4");
    } else if d == 5 {
        out.append("5");
    } else if d == 6 {
        out.append("6");
    } else if d == 7 {
        out.append("7");
    } else if d == 8 {
        out.append("8");
    } else {
        out.append("9");
    }
    proof {
        assert(out@ =~= old(out)@ + seq![digit_char(d as nat)]);
    }
}

/// Appends the decimal digits of `n`.
fn push_dec(out: &mut String, n: u64)
    ensures
        final(out)@ == old(out)@ + dec_digits(n as nat),
    decreases n,
{
    if n < 10 {
        push_digit(out, n);
    } else {
        push_dec(out, n / 10);
        push_digit(out, n % 10);
        proof {
            assert((n as nat) / 10 == (n / 10) as nat);
            assert((n as nat) % 10 == (n % 10) as nat);
            assert(out@ =~= old(out)@ + dec_digits(n as nat));
        }
    }
}

/// Appends one encoded number: its digits and the closing semicolon.
fn push_nat(out: &mut String, n: u64)
    ensures
        final(out)@ == old(out)@ + enc_nat(n as nat),
{
    proof {
        reveal_strlit(";");
    }
    push_dec(out, n);
    out.append(";");
    proof {
        assert(out@ =~= old(out)@ + enc_nat(n as nat));
    }
}

impl TypeIndex {
    /// Renders the index in its persisted textual form: the catalogue
    /// count and strings, then the entry count and entries, every number
    /// closed by a semicolon and every string length-prefixed.
    #[verifier::loop_isolation(false)]
    pub fn to_text(&self) -> (r: String)
        ensures
            r@ == enc_model(spec_model(*self)),
    {
        let ghost m = spec_model(*self);
        let mut out = String::new();
        let tn = self.types.len();
        push_nat(&mut out, tn as u64);
        let mut i: usize = 0;
        while i < tn
            invariant
                0 <= i <= tn,
                out@ == enc_nat(m.0.len()) + enc_strs(m.0.subrange(0, i as int)),
            decreases tn - i,
        {
            let t = &self.types[i];
            let len = t.as_str().unicode_len();
            push_nat(&mut out, len as u64);
            out.append(t.as_str());
            proof {
                assert(m.0.subrange(0, i + 1) =~= m.0.subrange(0, i as int).push(m.0[i as int]));
                lemma_enc_strs_snoc(m.0.subrange(0, i as int), m.0[i as int]);
                assert(out@ =~= enc_nat(m.0.len()) + enc_strs(m.0.subrange(0, i + 1)));
            }
            i += 1;
        }
        proof {
            assert(m.0.subrange(0, tn as int) =~= m.0);
        }
        let en = self.entries.len();
        push_nat(&mut out, en as u64);
        let ghost head = enc_nat(m.0.len()) + enc_strs(m.0) + enc_nat(m.1.len());
        let mut e: usize = 0;
        while e < en
            invariant
                0 <= e <= en,
                out@ == head + enc_entries(m.1.subrange(0, e as int)),
            decreases en - e,
        {
            push_nat(&mut out, self.entries[e].key);
            let ids_n = self.entries[e].type_ids.len();
            push_nat(&mut out, ids_n as u64);
            let ghost ehead = out@;
            let mut a: usize = 0;
            while a < ids_n
                invariant
                    0 <= a <= ids_n,
                    out@ == ehead + enc_nats(
                        m.1[e as int].1.subrange(0, a as int),
                    ),
                decreases ids_n - a,
            {
                push_nat(&mut out, self.entries[e].type_ids[a] as u64);
                proof {
                    let ids = m.1[e as int].1;
                    assert(ids[a as int] == self.entries@[e as int].type_ids@[a as int] as nat);
                    assert(ids.subrange(0, a + 1) =~= ids.subrange(0, a as int).push(
                        ids[a as int],
                    ));
                    lemma_enc_nats_snoc(ids.subrange(0, a as int), ids[a as int]);
                    assert(out@ =~= ehead + enc_nats(ids.subrange(0, a + 1)));
                }
                a += 1;
            }
            proof {
                let ids = m.1[e as int].1;
                assert(ids.subrange(0, ids.len() as int) =~= ids);
                assert(m.1[e as int].0 == self.entries@[e as int].key);
                assert(ids.len() == self.entries@[e as int].type_ids@.len());
                assert(out@ =~= head + enc_entries(m.1.subrange(0, e as int)) + enc_entry(
                    m.1[e as int],
                ));
                assert(m.1.subrange(0, e + 1) =~= m.1.subrange(0, e as int).push(m.1[e as int]));
                lemma_enc_entries_snoc(m.1.subrange(0, e as int), m.1[e as int]);
                assert(out@ =~= head + enc_entries(m.1.subrange(0, e + 1)));
            }
            e += 1;
        }
        proof {
            assert(m.1.subrange(0, en as int) =~= m.1);
            assert(out@ =~= enc_model(m));
        }
        out
    }
}


/// The numeric value of a digit character.
fn digit_of(c: char) -> (r: Option<u64>)
    ensures
        match r {
            Some(d) => char_digit(c) == Some(d as nat) && d < 10,
            None => char_digit(c) is None,
        },
{
    if c == '0' {
        Some(0)
    } else if c == '1' {
        Some(1)
    } else if c == '2' {
        Some(2)
    } else if c == '3' {
        Some(3)
    } else if c == '4' {
        Some(4)
    } else if c == '5' {
        Some(5)
    } else if c == '6' {
        Some(6)
    } else if c == '7' {
        Some(7)
    } else if c == '8' {
        Some(8)
    } else if c == '9' {
        Some(9)
    } else {
        None
    }
}

/// Reads one number closed by a semicolon.
#[verifier::loop_isolation(false)]
fn parse_nat_exec(s: &str, pos: usize) -> (r: Option<(u64, usize)>)
    requires
        pos <= s@.len(),
    ensures
        match r {
            Some(v) => parse_nat(s@, pos as int) == Some(((v.0 as nat), (v.1 as int))) && pos < v.1
                <= s@.len(),
            None => parse_nat(s@, pos as int) is None,
        },
{
    let n = s.unicode_len();
    let mut i = pos;
    let mut acc: u64 = 0;
    loop
        invariant
            pos <= i <= n,
            parse_nat_rec(s@, pos as int, 0) == parse_nat_rec(s@, i as int, acc as nat),
        decreases n - i,
    {
        if i >= n {
            return None;
        }
        let c = s.get_char(i);
        if c == ';' {
            return Some((acc, i + 1));
        }
        match digit_of(c) {
            None => {
                return None;
            },
            Some(d) => {
                proof {
                    vstd::arithmetic::div_mod::lemma_fundamental_div_mod(u64::MAX as int, 10);
                }
                if acc > u64::MAX / 10 {
                    proof {
                        assert((acc as nat) * 10 + (d as nat) > u64::MAX as nat);
                    }
                    return None;
                }
                proof {
                    assert((acc as nat) * 10 <= u64::MAX as nat);
                }
                let acc10 = acc * 10;
                if d > u64::MAX - acc10 {
                    return None;
                }
                acc = acc10 + d;
                i += 1;
            },
        }
    }
}

/// Reads one length-prefixed string.
fn parse_str_exec(s: &str, pos: usize) -> (r: Option<(String, usize)>)
    requires
        pos <= s@.len(),
    ensures
        match r {
            Some(v) => parse_str(s@, pos as int) == Some((v.0@, v.1 as int)) && pos <= v.1
                <= s@.len(),
            None => parse_str(s@, pos as int) is None,
        },
{
    let n = s.unicode_len();
    match parse_nat_exec(s, pos) {
        None => None,
        Some((len, p)) => {
            if len > (n - p) as u64 {
                return None;
            }
            let end = p + (len as usize);
            let t = s.substring_char(p, end);
            Some((String::from_str(t), end))
        },
    }
}

/// Reads `count` length-prefixed strings.
fn parse_strs_exec(s: &str, pos: usize, count: u64) -> (r: Option<(Vec<String>, usize)>)
    requires
        pos <= s@.len(),
    ensures
        match r {
            Some(v) => parse_strs(s@, pos as int, count as nat) == Some(
                (v.0@.map_values(|t: String| t@), v.1 as int),
            ) && pos <= v.1 <= s@.len(),
            None => parse_strs(s@, pos as int, count as nat) is None,
        },
    decreases count,
{
    if count == 0 {
        let out: Vec<String> = Vec::new();
        proof {
            assert(out@.map_values(|t: String| t@) =~= Seq::<Seq<char>>::empty());
        }
        return Some((out, pos));
    }
    match parse_str_exec(s, pos) {
        None => None,
        Some((t, p)) => match parse_strs_exec(s, p, count - 1) {
            None => None,
            Some((mut ts, q)) => {
                let ghost tsv = ts@.map_values(|t2: String| t2@);
                let mut out: Vec<String> = Vec::new();
                out.push(t);
                out.append(&mut ts);
                proof {
                    assert(out@.map_values(|t2: String| t2@) =~= seq![t@] + tsv);
                }
                Some((out, q))
            },
        },
    }
}

/// Reads `count` numbers.
fn parse_nats_exec(s: &str, pos: usize, count: u64) -> (r: Option<(Vec<u64>, usize)>)
    requires
        pos <= s@.len(),
    ensures
        match r {
            Some(v) => parse_nats(s@, pos as int, count as nat) == Some(
                (v.0@.map_values(|x: u64| x as nat), v.1 as int),
            ) && pos <= v.1 <= s@.len(),
            None => parse_nats(s@, pos as int, count as nat) is None,
        },
    decreases count,
{
    if count == 0 {
        let out: Vec<u64> = Vec::new();
        proof {
            assert(out@.map_values(|x: u64| x as nat) =~= Seq::<nat>::empty());
        }
        return Some((out, pos));
    }
    match parse_nat_exec(s, pos) {
        None => None,
        Some((x, p)) => match parse_nats_exec(s, p, count - 1) {
            None => None,
            Some((mut xs, q)) => {
                let ghost xsv = xs@.map_values(|y: u64| y as nat);
                let mut out: Vec<u64> = Vec::new();
                out.push(x);
                out.append(&mut xs);
                proof {
                    assert(out@.map_values(|y: u64| y as nat) =~= seq![x as nat] + xsv);
                }
                Some((out, q))
            },
        },
    }
}

/// Reads one entry: key, count of positions, positions.
fn parse_entry_exec(s: &str, pos: usize) -> (r: Option<((u64, Vec<u64>), usize)>)
    requires
        pos <= s@.len(),
    ensures
        match r {
            Some(v) => parse_entry(s@, pos as int) == Some(
                ((v.0.0, v.0.1@.map_values(|x: u64| x as nat)), v.1 as int),
            ) && pos <= v.1 <= s@.len(),
            None => parse_entry(s@, pos as int) is None,
        },
{
    match parse_nat_exec(s, pos) {
        None => None,
        Some((key, p)) => match parse_nat_exec(s, p) {
            None => None,
            Some((cnt, q)) => match parse_nats_exec(s, q, cnt) {
                None => None,
                Some((ids, r2)) => Some(((key, ids), r2)),
            },
        },
    }
}

/// Reads `count` entries.
fn parse_entries_exec(s: &str, pos: usize, count: u64) -> (r: Option<
    (Vec<(u64, Vec<u64>)>, usize),
>)
    requires
        pos <= s@.len(),
    ensures
        match r {
            Some(v) => parse_entries(s@, pos as int, count as nat) == Some(
                (
                    v.0@.map_values(
                        |e: (u64, Vec<u64>)| (e.0, e.1@.map_values(|x: u64| x as nat)),
                    ),
                    v.1 as int,
                ),
            ) && pos <= v.1 <= s@.len(),
            None => parse_entries(s@, pos as int, count as nat) is None,
        },
    decreases count,
{
    if count == 0 {
        let out: Vec<(u64, Vec<u64>)> = Vec::new();
        proof {
            assert(out@.map_values(
                |e: (u64, Vec<u64>)| (e.0, e.1@.map_values(|x: u64| x as nat)),
            ) =~= Seq::<(u64, Seq<nat>)>::empty());
        }
        return Some((out, pos));
    }
    match parse_entry_exec(s, pos) {
        None => None,
        Some((en, p)) => match parse_entries_exec(s, p, count - 1) {
            None => None,
            Some((mut es, q)) => {
                let ghost enm = (en.0, en.1@.map_values(|x: u64| x as nat));
                let ghost esv = es@.map_values(
                    |e: (u64, Vec<u64>)| (e.0, e.1@.map_values(|x: u64| x as nat)),
                );
                let mut out: Vec<(u64, Vec<u64>)> = Vec::new();
                out.push(en);
                out.append(&mut es);
                proof {
                    assert(out@.map_values(
                        |e: (u64, Vec<u64>)| (e.0, e.1@.map_values(|x: u64| x as nat)),
                    ) =~= seq![enm] + esv);
                }
                Some((out, q))
            },
        },
    }
}


/// An index whose persisted content is valid is well-formed.
proof fn lemma_valid_model_wf(idx: TypeIndex)
    requires
        model_valid(spec_model(idx)),
    ensures
        idx.wf(),
{
    let m = spec_model(idx);
    assert forall|i: int, j: int|
        0 <= i < j < idx.types@.len() implies (#[trigger] idx.types@[i])@ != (
    #[trigger] idx.types@[j])@ by {
        assert(m.0[i] == (idx.types@[i])@ && m.0[j] == (idx.types@[j])@);
    }
    assert forall|i: int, j: int|
        0 <= i < j < idx.entries@.len() implies (#[trigger] idx.entries@[i]).key != (
    #[trigger] idx.entries@[j]).key by {
        assert(m.1[i].0 == idx.entries@[i].key && m.1[j].0 == idx.entries@[j].key);
    }
    assert forall|e: int|
        0 <= e < idx.entries@.len() implies (forall|a: int|
        0 <= a < (#[trigger] idx.entries@[e]).type_ids@.len() ==> (#[trigger] idx.entries@[
        e].type_ids@[a]) < idx.types@.len()) by {
        assert forall|a: int|
            0 <= a < idx.entries@[e].type_ids@.len() implies (#[trigger] idx.entries@[
        e].type_ids@[a]) < idx.types@.len() by {
            assert(m.1[e].1[a] == idx.entries@[e].type_ids@[a] as nat);
            assert(m.1[e].1[a] < m.0.len());
        }
    }
    assert forall|e: int, a: int, b: int|
        0 <= e < idx.entries@.len() && 0 <= a < b < idx.entries@[e].type_ids@.len() implies (
    #[trigger] idx.entries@[e].type_ids@[a]) != (#[trigger] idx.entries@[e].type_ids@[b]) by {
        assert(m.1[e].1[a] == idx.entries@[e].type_ids@[a] as nat);
        assert(m.1[e].1[b] == idx.entries@[e].type_ids@[b] as nat);
        assert(m.1[e].1[a] != m.1[e].1[b]);
    }
}

impl TypeIndex {
    /// Reads an index back from its persisted textual form. This succeeds
    /// exactly on a complete encoding whose content a well-formed index
    /// can hold, and the index read back answers every key as the encoded
    /// one did.
    #[verifier::loop_isolation(false)]
    pub fn from_text(s: &str) -> (r: Option<TypeIndex>)
        ensures
            match r {
                Some(idx) => idx.wf() && (spec_decode(s@) matches Some(m) && model_valid(m)
                    && spec_model(idx) == m),
                None => spec_decode(s@) is None || (spec_decode(s@) matches Some(m)
                    && !model_valid(m)),
            },
    {
        let n = s.unicode_len();
        let (tn, p) = match parse_nat_exec(s, 0) {
            Some(v) => v,
            None => {
                return None;
            },
        };
        let (types, q) = match parse_strs_exec(s, p, tn) {
            Some(v) => v,
            None => {
                return None;
            },
        };
        let (en, r2) = match parse_nat_exec(s, q) {
            Some(v) => v,
            None => {
                return None;
            },
        };
        let (raw_entries, end) = match parse_entries_exec(s, r2, en) {
            Some(v) => v,
            None => {
                return None;
            },
        };
        if end != n {
            return None;
        }
        let ghost m = (
            types@.map_values(|t: String| t@),
            raw_entries@.map_values(
                |e: (u64, Vec<u64>)| (e.0, e.1@.map_values(|x: u64| x as nat)),
            ),
        );
        proof {
            assert(spec_decode(s@) == Some(m));
        }
        // No catalogue string twice.
        let tcount = types.len();
        let mut i: usize = 0;
        while i < tcount
            invariant
                0 <= i <= tcount,
                forall|x: int, y: int| 0 <= x < y < tcount && x < i ==> m.0[x] != m.0[y],
            decreases tcount - i,
        {
            let mut j = i + 1;
            while j < tcount
                invariant
                    i < j <= tcount,
                    forall|y: int| i < y < j ==> m.0[i as int] != m.0[y],
                decreases tcount - j,
            {
                if types[i].eq(&types[j]) {
                    proof {
                        assert(m.0[i as int] == m.0[j as int]);
                        assert(!model_valid(m));
                    }
                    return None;
                }
                j += 1;
            }
            i += 1;
        }
        // No key twice.
        let ecount = raw_entries.len();
        let mut i2: usize = 0;
        while i2 < ecount
            invariant
                0 <= i2 <= ecount,
                forall|x: int, y: int| 0 <= x < y < ecount && x < i2 ==> m.1[x].0 != m.1[y].0,
            decreases ecount - i2,
        {
            let mut j = i2 + 1;
            while j < ecount
                invariant
                    i2 < j <= ecount,
                    forall|y: int| i2 < y < j ==> m.1[i2 as int].0 != m.1[y].0,
                decreases ecount - j,
            {
                if raw_entries[i2].0 == raw_entries[j].0 {
                    proof {
                        assert(m.1[i2 as int].0 == m.1[j as int].0);
                        assert(!model_valid(m));
                    }
                    return None;
                }
                j += 1;
            }
            i2 += 1;
        }
        // Every position inside the catalogue and none twice in an entry.
        let mut e: usize = 0;
        while e < ecount
            invariant
                0 <= e <= ecount,
                forall|x: int, a: int|
                    0 <= x < e && 0 <= a < m.1[x].1.len() ==> (#[trigger] m.1[x].1[a]) < m.0.len(),
                forall|x: int, a: int, b: int|
                    0 <= x < e && 0 <= a < b < m.1[x].1.len() ==> (#[trigger] m.1[x].1[a]) != (
                    #[trigger] m.1[x].1[b]),
            decreases ecount - e,
        {
            let ids_n = raw_entries[e].1.len();
            let mut a: usize = 0;
            while a < ids_n
                invariant
                    e < ecount,
                    0 <= a <= ids_n,
                    ids_n == m.1[e as int].1.len(),
                    forall|x: int| 0 <= x < a ==> (#[trigger] m.1[e as int].1[x]) < m.0.len(),
                    forall|x: int, y: int|
                        0 <= x < y < ids_n && x < a ==> (#[trigger] m.1[e as int].1[x]) != (
                        #[trigger] m.1[e as int].1[y]),
                decreases ids_n - a,
            {
                if raw_entries[e].1[a] >= tcount as u64 {
                    proof {
                        assert(m.1[e as int].1[a as int] >= m.0.len());
                        assert(!model_valid(m));
                    }
                    return None;
                }
                let mut b = a + 1;
                while b < ids_n
                    invariant
                        e < ecount,
                        a < b <= ids_n,
                        ids_n == m.1[e as int].1.len(),
                        forall|y: int|
                            a < y < b ==> (#[trigger] m.1[e as int].1[y])
                                != m.1[e as int].1[a as int],
                    decreases ids_n - b,
                {
                    if raw_entries[e].1[a] == raw_entries[e].1[b] {
                        proof {
                            assert(m.1[e as int].1[a as int] == m.1[e as int].1[b as int]);
                            assert(!model_valid(m));
                        }
                        return None;
                    }
                    b += 1;
                }
                a += 1;
            }
            e += 1;
        }
        proof {
            assert(model_valid(m));
        }
        // Build the index; every position fits because it is below the
        // catalogue length.
        let mut entries: Vec<IndexEntry> = Vec::new();
        let mut e2: usize = 0;
        while e2 < ecount
            invariant
                0 <= e2 <= ecount,
                entries@.len() == e2,
                forall|x: int|
                    0 <= x < e2 ==> ((#[trigger] entries@[x]).key, entries@[x].type_ids@.map_values(
                        |id: usize| id as nat,
                    )) == m.1[x],
            decreases ecount - e2,
        {
            let key = raw_entries[e2].0;
            let ids_n = raw_entries[e2].1.len();
            let mut ids: Vec<usize> = Vec::new();
            let mut a: usize = 0;
            while a < ids_n
                invariant
                    e2 < ecount,
                    0 <= a <= ids_n,
                    ids_n == m.1[e2 as int].1.len(),
                    ids@.len() == a,
                    forall|x: int|
                        0 <= x < a ==> (#[trigger] ids@[x]) as nat == m.1[e2 as int].1[x],
                decreases ids_n - a,
            {
                let id = raw_entries[e2].1[a];
                proof {
                    assert(m.1[e2 as int].1[a as int] < m.0.len());
                    assert((id as nat) < types@.len());
                }
                ids.push(id as usize);
                a += 1;
            }
            proof {
                assert(ids@.map_values(|id: usize| id as nat) =~= m.1[e2 as int].1);
            }
            entries.push(IndexEntry { key, type_ids: ids });
            e2 += 1;
        }
        let idx = TypeIndex { types, entries };
        proof {
            assert(spec_model(idx).0 =~= m.0);
            assert(spec_model(idx).1 =~= m.1);
            assert(spec_model(idx) == m);
            lemma_valid_model_wf(idx);
        }
        Some(idx)
    }
}


/// Is this statement a type assertion?
pub open spec fn is_type_triple(t: crate::rdf_types::Triple) -> bool {
    t.predicate.iri@ == "http://www.w3.org/1999/02/22-rdf-syntax-ns#type"@
}

/// The types filed under key `k` once the statements have been passed
/// over in order: each type assertion files its object's text under the
/// hash of its subject's text, and every other statement files nothing.
pub open spec fn spec_index_of(ts: Seq<crate::rdf_types::Triple>, k: u64) -> Option<Seq<Seq<char>>>
    decreases ts.len(),
{
    if ts.len() == 0 {
        None
    } else {
        let prev = spec_index_of(ts.drop_last(), k);
        if is_type_triple(ts.last()) && subject_hash(
            crate::rdf_types::subject_text(ts.last().subject),
        ) == k {
            types_after(prev, crate::rdf_types::term_text(ts.last().object))
        } else {
            prev
        }
    }
}

/// Files a statement into the index when it asserts a type: the subject's
/// text gains the object's text as a type. Any other statement leaves the
/// index untouched.
pub fn index_triple(t: &crate::rdf_types::Triple, index: &mut TypeIndex)
    requires
        old(index).wf(),
    ensures
        final(index).wf(),
        !is_type_triple(*t) ==> *final(index) == *old(index),
        is_type_triple(*t) ==> ({
            let k = subject_hash(crate::rdf_types::subject_text(t.subject));
            let ty = crate::rdf_types::term_text(t.object);
            &&& final(index).spec_get(k) == types_after(old(index).spec_get(k), ty)
            &&& forall|k2: u64|
                k2 != k ==> #[trigger] final(index).spec_get(k2) == old(index).spec_get(k2)
        }),
{
    let type_iri = String::from_str("http://www.w3.org/1999/02/22-rdf-syntax-ns#type");
    if t.predicate.iri.eq(&type_iri) {
        let subject = t.subject.to_text();
        let object = t.object.to_text();
        index.insert(subject.as_str(), object.as_str());
        proof {
            assert(subject@ == crate::rdf_types::subject_text(t.subject));
            assert(object@ == crate::rdf_types::term_text(t.object));
        }
    }
}

/// Builds a type index from one pass over the statements: every type
/// assertion is filed, everything else is passed over, so the result
/// answers every key exactly as an empty index does after the pass.
#[verifier::loop_isolation(false)]
pub fn build_type_index(triples: &Vec<crate::rdf_types::Triple>) -> (r: TypeIndex)
    ensures
        r.wf(),
        forall|k: u64| #[trigger] r.spec_get(k) == spec_index_of(triples@, k),
{
    let mut index = TypeIndex::new();
    let n = triples.len();
    let mut i: usize = 0;
    while i < n
        invariant
            0 <= i <= n,
            index.wf(),
            forall|k: u64|
                #[trigger] index.spec_get(k) == spec_index_of(triples@.subrange(0, i as int), k),
        decreases n - i,
    {
        let ghost prev = index;
        index_triple(&triples[i], &mut index);
        proof {
            let pre = triples@.subrange(0, i as int);
            let cur = triples@.subrange(0, i + 1);
            assert(cur.drop_last() =~= pre);
            assert(cur.last() == triples@[i as int]);
            assert forall|k: u64| #[trigger] index.spec_get(k) == spec_index_of(cur, k) by {
                if is_type_triple(triples@[i as int]) {
                    let kk = subject_hash(
                        crate::rdf_types::subject_text(triples@[i as int].subject),
                    );
                    if k == kk {
                        assert(index.spec_get(k) == types_after(
                            prev.spec_get(k),
                            crate::rdf_types::term_text(triples@[i as int].object),
                        ));
                    } else {
                        assert(index.spec_get(k) == prev.spec_get(k));
                    }
                } else {
                    assert(index == prev);
                }
            }
        }
        i += 1;
    }
    proof {
        assert(triples@.subrange(0, n as int) =~= triples@);
    }
    index
}


/// Law: the persisted type index round-trips exactly. For a well-formed
/// index whose counts fit the number format, decoding its encoding
/// succeeds with its own content, and any index holding that content —
/// such as the one read back — answers every key as the original did: in
/// particular every filed subject-type pair is found again.
pub proof fn lemma_index_round_trip(idx: TypeIndex, idx2: TypeIndex)
    requires
        idx.wf(),
        model_bounded(spec_model(idx)),
        spec_model(idx2) == spec_model(idx),
    ensures
        spec_decode(enc_model(spec_model(idx))) == Some(spec_model(idx)),
        idx2.wf(),
        forall|k: u64| #[trigger] idx2.spec_get(k) == idx.spec_get(k),
{
    lemma_decode_encode(spec_model(idx));
    lemma_same_model_same_get(idx, idx2);
}

} // verus!
