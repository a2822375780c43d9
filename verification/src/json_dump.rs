//! The list of duplicates by size, digest and original.

use crate::bytes::bytes_less;
use crate::collector::digest_of_key;
use crate::comparator::DuplicateMessage;
use crate::digest::Digest;
use crate::maps::{keys_of, lemma_keys_of};
use crate::path::lossy_text;
use crate::seqs::lemma_came_from;
use crate::text::{
    copy_strings, decimal, decimal_text, hex, lemma_decimal_value, lemma_hex_injective,
    lemma_texts_are_those_of_the_strings, texts,
};
use crate::text_order::{in_text_order, lemma_order_is_that_of_the_bytes, lemma_texts_in_order_differ, sort_entries};
use std::collections::BTreeMap;
use vstd::hash_map::StringHashMap;
use vstd::prelude::*;
use vstd::std_specs::iter::IteratorSpec;
use vstd::utf8::encode_utf8;

verus! {

broadcast use {
    vstd::std_specs::btree::group_btree_axioms,
    vstd::laws_cmp::group_laws_cmp,
};

/// Originals with one size and digest, each with its duplicates in the order in which they come.
pub struct DuplicateList {
    /// The text of every original, with the texts of its duplicates.
    pub entries: Vec<(String, Vec<String>)>,
    /// The place of every original in `entries`.
    pub places: StringHashMap<usize>,
}

/// A list of duplicates with one more under an original.
pub open spec fn with_duplicate(
    list: Map<Seq<char>, Seq<Seq<char>>>,
    original: Seq<char>,
    duplicate: Seq<char>,
) -> Map<Seq<char>, Seq<Seq<char>>> {
    list.insert(
        original,
        if list.contains_key(original) {
            list[original].push(duplicate)
        } else {
            seq![duplicate]
        },
    )
}

impl View for DuplicateList {
    type V = Map<Seq<char>, Seq<Seq<char>>>;

    /// The duplicates of every original.
    open spec fn view(&self) -> Map<Seq<char>, Seq<Seq<char>>> {
        Map::new(
            |t: Seq<char>| self.places@.contains_key(t),
            |t: Seq<char>| texts(self.entries@[self.places@[t] as int].1@),
        )
    }
}

impl DuplicateList {
    /// Whether every original stands in the list once, at its place.
    pub open spec fn well_formed(&self) -> bool {
        &&& forall|i: int|
            #![trigger self.entries@[i]]
            0 <= i < self.entries@.len() ==> self.places@.contains_key(self.entries@[i].0@)
                && self.places@[self.entries@[i].0@] == i
        &&& forall|t: Seq<char>| #[trigger]
            self.places@.contains_key(t) ==> self.places@[t] < self.entries@.len()
                && self.entries@[self.places@[t] as int].0@ == t
    }

    pub fn new() -> (list: DuplicateList)
        ensures
            list.well_formed(),
            list@ == Map::<Seq<char>, Seq<Seq<char>>>::empty(),
    {
        let list = DuplicateList { entries: Vec::new(), places: StringHashMap::new() };
        assert(list@ =~= Map::empty());
        list
    }

    /// Adds a duplicate under its original, given how the two read.
    pub fn add(&mut self, original: String, duplicate: String)
        requires
            old(self).well_formed(),
        ensures
            final(self).well_formed(),
            final(self)@ == with_duplicate(old(self)@, original@, duplicate@),
            final(self)@ == old(self)@.insert(
                original@,
                if old(self)@.contains_key(original@) {
                    old(self)@[original@].push(duplicate@)
                } else {
                    seq![duplicate@]
                },
            ),
    {
        let ghost first = original@;
        let ghost second = duplicate@;
        let found = match self.places.get(original.as_str()) {
            Some(place) => Some(*place),
            None => None,
        };
        match found {
            Some(place) => {
                let ghost before = self.entries@;
                self.entries[place].1.push(duplicate);
                assert(self.entries@[place as int].0 == before[place as int].0);
                assert(texts(self.entries@[place as int].1@) =~= texts(
                    before[place as int].1@,
                ).push(second));
                assert(self@ =~= with_duplicate(old(self)@, first, second));
            },
            None => {
                let place: usize = self.entries.len();
                let mut duplicates: Vec<String> = Vec::new();
                duplicates.push(duplicate);
                assert(texts(duplicates@) =~= seq![second]);
                self.places.insert(original.clone(), place);
                self.entries.push((original, duplicates));
                assert(self@ =~= with_duplicate(old(self)@, first, second));
            },
        }
    }
}

/// The originals of one size, by digest.
pub type DuplicateBucket = BTreeMap<(u128, u128), DuplicateList>;

/// Collects duplicates by the size, the digest and the original.
pub struct JsonDumper {
    pub map: BTreeMap<u64, DuplicateBucket>,
}

/// The duplicates of every original, by size and digest.
pub type Duplicates = Map<(u64, Digest), Map<Seq<char>, Seq<Seq<char>>>>;

/// All duplicates with one more.
pub open spec fn with_found(
    all: Duplicates,
    key: (u64, Digest),
    original: Seq<char>,
    duplicate: Seq<char>,
) -> Duplicates {
    all.insert(
        key,
        with_duplicate(
            if all.contains_key(key) {
                all[key]
            } else {
                Map::empty()
            },
            original,
            duplicate,
        ),
    )
}

impl View for JsonDumper {
    type V = Duplicates;

    /// The duplicates of every original, by size and digest.
    open spec fn view(&self) -> Duplicates {
        Map::new(
            |k: (u64, Digest)|
                self.map@.contains_key(k.0) && self.map@[k.0]@.contains_key(
                    (k.1.first, k.1.second),
                ),
            |k: (u64, Digest)| self.map@[k.0]@[(k.1.first, k.1.second)]@,
        )
    }
}

impl JsonDumper {
    /// Whether every list is in order, and there is no size without a digest.
    pub open spec fn well_formed(&self) -> bool {
        &&& forall|size: u64, key: (u128, u128)|
            self.map@.contains_key(size) && #[trigger] self.map@[size]@.contains_key(key)
                ==> self.map@[size]@[key].well_formed()
        &&& forall|size: u64| #[trigger]
            self.map@.contains_key(size) ==> exists|digest: Digest| #[trigger]
                self@.contains_key((size, digest))
    }

    pub fn new() -> (dumper: JsonDumper)
        ensures
            dumper.well_formed(),
            dumper@ == Map::<(u64, Digest), Map<Seq<char>, Seq<Seq<char>>>>::empty(),
            dumper.map@.dom().is_empty(),
    {
        let dumper = JsonDumper { map: BTreeMap::new() };
        assert(dumper@ =~= Map::empty());
        dumper
    }

    /// Adds a duplicate under its size, its digest and its original, given how the two files read.
    pub fn list_texts(&mut self, file_size: u64, hash: Digest, original: String, duplicate: String)
        requires
            old(self).well_formed(),
        ensures
            final(self).well_formed(),
            final(self)@ == with_found(old(self)@, (file_size, hash), original@, duplicate@),
            ({
                let key = (file_size, hash);
                let list = if old(self)@.contains_key(key) {
                    old(self)@[key]
                } else {
                    Map::empty()
                };
                final(self)@ == old(self)@.insert(
                    key,
                    list.insert(
                        original@,
                        if list.contains_key(original@) {
                            list[original@].push(duplicate@)
                        } else {
                            seq![duplicate@]
                        },
                    ),
                )
            }),
    {
        let ghost before = self@;
        let ghost first = original@;
        let ghost second = duplicate@;
        let key = (hash.first, hash.second);
        let mut bucket: DuplicateBucket = match self.map.remove(&file_size) {
            Some(bucket) => bucket,
            None => BTreeMap::new(),
        };
        let mut list: DuplicateList = match bucket.remove(&key) {
            Some(list) => list,
            None => DuplicateList::new(),
        };
        assert(list.well_formed());
        list.add(original, duplicate);
        bucket.insert(key, list);
        self.map.insert(file_size, bucket);
        assert forall|k: (u64, Digest)| self@.contains_key(k) <==> with_found(
            before,
            (file_size, hash),
            first,
            second,
        ).contains_key(k) by {
            if k.0 == file_size && (k.1.first, k.1.second) == key {
                assert(k == (file_size, hash));
            }
        }
        assert(self@ =~= with_found(before, (file_size, hash), first, second));
        assert forall|s: u64| #[trigger] self.map@.contains_key(s) implies exists|digest: Digest|
            #[trigger] self@.contains_key((s, digest)) by {
            if s == file_size {
                assert(self@.contains_key((s, hash)));
            } else {
                assert(old(self).map@.contains_key(s));
                let digest = choose|digest: Digest| #[trigger] before.contains_key((s, digest));
                assert(self@.contains_key((s, digest)));
            }
        }
    }

    /// Adds a duplicate under its size, its digest and its original.
    pub fn receive(&mut self, message: &DuplicateMessage)
        requires
            old(self).well_formed(),
        ensures
            final(self).well_formed(),
            final(self)@ == with_found(
                old(self)@,
                message.key(),
                lossy_text(message.original@),
                lossy_text(message.duplicate@),
            ),
            ({
                let key = (message.file_size, message.hash);
                let original = lossy_text(message.original@);
                let duplicate = lossy_text(message.duplicate@);
                let list = if old(self)@.contains_key(key) {
                    old(self)@[key]
                } else {
                    Map::empty()
                };
                final(self)@ == old(self)@.insert(
                    key,
                    list.insert(
                        original,
                        if list.contains_key(original) {
                            list[original].push(duplicate)
                        } else {
                            seq![duplicate]
                        },
                    ),
                )
            }),
    {
        self.list_texts(
            message.file_size,
            message.hash,
            message.original.to_text(),
            message.duplicate.to_text(),
        );
    }
}

/// A duplicate that was found: its size and digest, how its original reads, and how it reads.
pub type Found = ((u64, Digest), Seq<char>, Seq<char>);

/// The duplicates after some have come, from none.
pub open spec fn listed(found: Seq<Found>) -> Duplicates
    decreases found.len(),
{
    if found.len() == 0 {
        Map::empty()
    } else {
        let last = found.last();
        with_found(listed(found.drop_last()), last.0, last.1, last.2)
    }
}

/// Under every size, digest and original stand exactly the duplicates that came with them, in the
/// order in which they came; an original without any is not in the list.
pub proof fn lemma_list_holds_what_came(
    found: Seq<Found>,
    key: (u64, Digest),
    original: Seq<char>,
)
    ensures
        ({
            let came = found.filter(|f: Found| f.0 == key && f.1 == original);
            let all = listed(found);
            &&& all.contains_key(key) && all[key].contains_key(original) <==> came.len() > 0
            &&& came.len() > 0 ==> all[key][original] == came.map_values(|f: Found| f.2)
        }),
    decreases found.len(),
{
    let same = |f: Found| f.0 == key && f.1 == original;
    let third = |f: Found| f.2;
    if found.len() == 0 {
        assert(found.filter(same) =~= seq![]);
    } else {
        let front = found.drop_last();
        lemma_list_holds_what_came(front, key, original);
        assert(found =~= front.push(found.last()));
        front.lemma_filter_push(found.last(), same);
        if same(found.last()) {
            assert(found.filter(same).map_values(third) =~= front.filter(same).map_values(
                third,
            ).push(found.last().2));
            if front.filter(same).len() == 0 {
                assert(found.filter(same).map_values(third) =~= seq![found.last().2]);
            }
        }
    }
}

/// Originals with their duplicates.
pub type ListReport = Vec<(String, Vec<String>)>;

/// Digests in hexadecimal, with the originals under each.
pub type DuplicateBucketReport = Vec<(String, ListReport)>;

/// Sizes in decimal, with the digests under each.
pub type DuplicateReport = Vec<(String, DuplicateBucketReport)>;

/// Whether an entry names an original of a list, and its duplicates.
pub open spec fn reports_original(
    entry: (String, Vec<String>),
    list: Map<Seq<char>, Seq<Seq<char>>>,
) -> bool {
    &&& list.contains_key(entry.0@)
    &&& list[entry.0@] == texts(entry.1@)
}

/// Whether entries name exactly the originals of a list, in order, and the duplicates of each.
pub open spec fn reports_list(
    entries: Seq<(String, Vec<String>)>,
    list: Map<Seq<char>, Seq<Seq<char>>>,
) -> bool {
    &&& in_text_order(entries)
    &&& forall|i: int|
        #![trigger entries[i]]
        0 <= i < entries.len() ==> reports_original(entries[i], list)
    &&& forall|t: Seq<char>| #[trigger]
        list.contains_key(t) ==> exists|i: int|
            0 <= i < entries.len() && (#[trigger] entries[i]).0@ == t
}

/// Whether an entry lists the originals of a bucket that have a digest.
pub open spec fn reports_list_of(
    entry: (String, ListReport),
    bucket: Map<(u128, u128), DuplicateList>,
    key: (u128, u128),
) -> bool {
    &&& bucket.contains_key(key)
    &&& entry.0@ == hex(digest_of_key(key)@)
    &&& reports_list(entry.1@, bucket[key]@)
}

/// Whether an entry lists the originals of a bucket that have some digest.
#[verifier::opaque]
pub open spec fn reports_some_list(
    entry: (String, ListReport),
    bucket: Map<(u128, u128), DuplicateList>,
) -> bool {
    exists|key: (u128, u128)| #[trigger] reports_list_of(entry, bucket, key)
}

/// Whether entries name exactly the digests of a bucket, in the order of their texts, and the
/// originals under each.
pub open spec fn reports_duplicates_of_size(
    entries: Seq<(String, ListReport)>,
    bucket: Map<(u128, u128), DuplicateList>,
) -> bool {
    &&& in_text_order(entries)
    &&& forall|i: int|
        #![trigger entries[i]]
        0 <= i < entries.len() ==> reports_some_list(entries[i], bucket)
    &&& forall|key: (u128, u128)| #[trigger]
        bucket.contains_key(key) ==> exists|i: int|
            0 <= i < entries.len() && reports_list_of(#[trigger] entries[i], bucket, key)
}

/// Whether an entry lists the originals of a size.
pub open spec fn reports_bucket_of(
    entry: (String, DuplicateBucketReport),
    map: Map<u64, DuplicateBucket>,
    size: u64,
) -> bool {
    &&& map.contains_key(size)
    &&& entry.0@ == decimal(size as nat)
    &&& reports_duplicates_of_size(entry.1@, map[size]@)
}

/// Whether an entry lists the originals of some size.
#[verifier::opaque]
pub open spec fn reports_some_bucket(
    entry: (String, DuplicateBucketReport),
    map: Map<u64, DuplicateBucket>,
) -> bool {
    exists|size: u64| #[trigger] reports_bucket_of(entry, map, size)
}

/// Whether entries name exactly the sizes that came, in the order of their texts, and the digests
/// under each.
pub open spec fn reports_duplicates(
    entries: Seq<(String, DuplicateBucketReport)>,
    map: Map<u64, DuplicateBucket>,
) -> bool {
    &&& in_text_order(entries)
    &&& forall|i: int|
        #![trigger entries[i]]
        0 <= i < entries.len() ==> reports_some_bucket(entries[i], map)
    &&& forall|size: u64| #[trigger]
        map.contains_key(size) ==> exists|i: int|
            0 <= i < entries.len() && reports_bucket_of(#[trigger] entries[i], map, size)
}

/// What stands under the text of a size is the list of the originals of that size.
pub proof fn lemma_duplicate_report_is_read_back(
    entries: Seq<(String, DuplicateBucketReport)>,
    map: Map<u64, DuplicateBucket>,
    i: int,
    size: u64,
)
    requires
        reports_duplicates(entries, map),
        0 <= i < entries.len(),
        entries[i].0@ == decimal(size as nat),
    ensures
        map.contains_key(size),
        reports_duplicates_of_size(entries[i].1@, map[size]@),
{
    reveal(reports_some_bucket);
    assert(reports_some_bucket(entries[i], map));
    let s = choose|s: u64| #[trigger] reports_bucket_of(entries[i], map, s);
    lemma_decimal_value(s as nat);
    lemma_decimal_value(size as nat);
}

/// What stands under the text of a digest is the list of the originals that have it.
pub proof fn lemma_duplicate_bucket_is_read_back(
    entries: Seq<(String, ListReport)>,
    bucket: Map<(u128, u128), DuplicateList>,
    i: int,
    key: (u128, u128),
)
    requires
        reports_duplicates_of_size(entries, bucket),
        0 <= i < entries.len(),
        entries[i].0@ == hex(digest_of_key(key)@),
    ensures
        bucket.contains_key(key),
        reports_list(entries[i].1@, bucket[key]@),
{
    reveal(reports_some_list);
    assert(reports_some_list(entries[i], bucket));
    let k = choose|k: (u128, u128)| #[trigger] reports_list_of(entries[i], bucket, k);
    let a = digest_of_key(k);
    let b = digest_of_key(key);
    lemma_hex_injective(a@, b@);
    crate::digest::lemma_digest_bytes(a, a@);
    crate::digest::lemma_digest_bytes(b, b@);
    assert(k == key);
}

impl DuplicateList {
    /// Lists every original with its duplicates.
    pub fn report(&self) -> (entries: ListReport)
        requires
            self.well_formed(),
        ensures
            reports_list(entries@, self@),
            forall|i: int, j: int|
                0 <= i < j < entries@.len() ==> bytes_less(
                    encode_utf8((#[trigger] entries@[i]).0@),
                    encode_utf8((#[trigger] entries@[j]).0@),
                ),
            forall|n: int|
                0 <= n < entries@.len() ==> {
                    &&& self@.contains_key((#[trigger] entries@[n]).0@)
                    &&& entries@[n].1@.len() == self@[entries@[n].0@].len()
                    &&& forall|k: int|
                        0 <= k < entries@[n].1@.len() ==> (#[trigger] entries@[n].1@[k])@
                            == self@[entries@[n].0@][k]
                },
    {
        let mut entries: ListReport = Vec::new();
        let mut i: usize = 0;
        while i < self.entries.len()
            invariant
                i <= self.entries@.len(),
                entries@.len() == i,
                forall|n: int|
                    #![trigger entries@[n]]
                    0 <= n < i ==> entries@[n].0@ == self.entries@[n].0@ && texts(entries@[n].1@)
                        == texts(self.entries@[n].1@),
            decreases self.entries@.len() - i,
        {
            entries.push((self.entries[i].0.clone(), copy_strings(&self.entries[i].1)));
            i = i + 1;
        }
        let ghost list = entries@;
        assert forall|n: int, m: int| 0 <= n < m < list.len() implies (#[trigger] list[n]).0@ != (
        #[trigger] list[m]).0@ by {
            assert(self.places@[self.entries@[n].0@] == n);
            assert(self.places@[self.entries@[m].0@] == m);
        }
        let sorted = sort_entries(entries);
        proof {
            assert forall|n: int|
                #![trigger sorted@[n]]
                0 <= n < sorted@.len() implies reports_original(sorted@[n], self@) by {
                lemma_came_from(sorted@, list, n);
                let m = choose|m: int| 0 <= m < list.len() && list[m] == sorted@[n];
                assert(self.places@.contains_key(self.entries@[m].0@));
            }
            assert forall|n: int| 0 <= n < sorted@.len() implies {
                &&& self@.contains_key((#[trigger] sorted@[n]).0@)
                &&& sorted@[n].1@.len() == self@[sorted@[n].0@].len()
                &&& forall|k: int|
                    0 <= k < sorted@[n].1@.len() ==> (#[trigger] sorted@[n].1@[k])@
                        == self@[sorted@[n].0@][k]
            } by {
                assert(reports_original(sorted@[n], self@));
                lemma_texts_are_those_of_the_strings(sorted@[n].1@);
            }
            assert forall|t: Seq<char>| #[trigger] self@.contains_key(t) implies exists|n: int|
                0 <= n < sorted@.len() && (#[trigger] sorted@[n]).0@ == t by {
                assert(self.places@.contains_key(t));
                let place = self.places@[t] as int;
                assert(list[place].0@ == t);
                lemma_came_from(list, sorted@, place);
                let n = choose|n: int| 0 <= n < sorted@.len() && sorted@[n] == list[place];
                assert(sorted@[n].0@ == t);
            }
        }
        sorted
    }
}

/// Lists the originals of a size by digest.
fn report_duplicates_of_size(bucket: &DuplicateBucket) -> (entries: DuplicateBucketReport)
    requires
        forall|key: (u128, u128)| #[trigger]
            bucket@.contains_key(key) ==> bucket@[key].well_formed(),
    ensures
        reports_duplicates_of_size(entries@, bucket@),
{
    let mut entries: DuplicateBucketReport = Vec::new();
    let walk = bucket.iter();
    let ghost items = walk.remaining();
    let ghost keys = keys_of(items);
    for (key, list) in it: walk
        invariant
            it.seq() == items,
            keys == keys_of(items),
            items == bucket.iter().remaining(),
            forall|key: (u128, u128)| #[trigger]
                bucket@.contains_key(key) ==> bucket@[key].well_formed(),
            entries@.len() == it.index(),
            forall|i: int|
                #![trigger entries@[i]]
                0 <= i < entries@.len() ==> entries@[i].0@ == hex(digest_of_key(keys[i])@)
                    && reports_list(entries@[i].1@, bucket@[keys[i]]@),
    {
        let digest = Digest { first: key.0, second: key.1 };
        assert(items[it.index()] == (key, list));
        assert(bucket@.contains_key(*items[it.index()].0));
        entries.push((digest.to_hex(), list.report()));
    }
    let ghost all = entries@;
    proof {
        lemma_keys_of(items, bucket@);
        assert forall|i: int, j: int| 0 <= i < j < all.len() implies (#[trigger] all[i]).0@ != (
        #[trigger] all[j]).0@ by {
            let a = digest_of_key(keys[i]);
            let b = digest_of_key(keys[j]);
            lemma_hex_injective(a@, b@);
            crate::digest::lemma_digest_bytes(a, a@);
            crate::digest::lemma_digest_bytes(b, b@);
        }
    }
    let sorted = sort_entries(entries);
    proof {
        assert forall|i: int| 0 <= i < all.len() implies reports_list_of(
            #[trigger] all[i],
            bucket@,
            keys[i],
        ) by {
            assert(keys.contains(keys[i]));
            assert(keys.to_set().contains(keys[i]));
        }
        assert forall|i: int|
            #![trigger sorted@[i]]
            0 <= i < sorted@.len() implies reports_some_list(sorted@[i], bucket@) by {
            reveal(reports_some_list);
            lemma_came_from(sorted@, all, i);
            let n = choose|n: int| 0 <= n < all.len() && all[n] == sorted@[i];
            assert(reports_list_of(all[n], bucket@, keys[n]));
        }
        assert forall|key: (u128, u128)| #[trigger] bucket@.contains_key(key) implies exists|i: int|
            0 <= i < sorted@.len() && reports_list_of(#[trigger] sorted@[i], bucket@, key) by {
            assert(keys.to_set().contains(key));
            let n = choose|n: int| 0 <= n < keys.len() && keys[n] == key;
            lemma_came_from(all, sorted@, n);
            let i = choose|i: int| 0 <= i < sorted@.len() && sorted@[i] == all[n];
            assert(reports_list_of(sorted@[i], bucket@, key));
        }
    }
    sorted
}

impl JsonDumper {
    /// Lists all duplicates, by size, digest and original.
    pub fn report(&self) -> (entries: DuplicateReport)
        requires
            self.well_formed(),
        ensures
            reports_duplicates(entries@, self.map@),
            forall|i: int, j: int|
                0 <= i < j < entries@.len() ==> bytes_less(
                    encode_utf8((#[trigger] entries@[i]).0@),
                    encode_utf8((#[trigger] entries@[j]).0@),
                ),
    {
        let mut entries: DuplicateReport = Vec::new();
        let walk = self.map.iter();
        let ghost items = walk.remaining();
        let ghost sizes = keys_of(items);
        for (size, bucket) in it: walk
            invariant
                it.seq() == items,
                sizes == keys_of(items),
                items == self.map.iter().remaining(),
                self.well_formed(),
                entries@.len() == it.index(),
                forall|i: int|
                    #![trigger entries@[i]]
                    0 <= i < entries@.len() ==> entries@[i].0@ == decimal(sizes[i] as nat)
                        && reports_duplicates_of_size(entries@[i].1@, self.map@[sizes[i]]@),
        {
            assert(items[it.index()] == (size, bucket));
            assert(self.map@.contains_key(*items[it.index()].0));
            entries.push((decimal_text(*size), report_duplicates_of_size(bucket)));
        }
        let ghost all = entries@;
        proof {
            lemma_keys_of(items, self.map@);
            assert forall|i: int, j: int| 0 <= i < j < all.len() implies (#[trigger] all[i]).0@ != (
            #[trigger] all[j]).0@ by {
                lemma_decimal_value(sizes[i] as nat);
                lemma_decimal_value(sizes[j] as nat);
            }
        }
        let sorted = sort_entries(entries);
        proof {
            assert forall|i: int| 0 <= i < all.len() implies reports_bucket_of(
                #[trigger] all[i],
                self.map@,
                sizes[i],
            ) by {
                assert(sizes.contains(sizes[i]));
                assert(sizes.to_set().contains(sizes[i]));
            }
            assert forall|i: int|
                #![trigger sorted@[i]]
                0 <= i < sorted@.len() implies reports_some_bucket(sorted@[i], self.map@) by {
                reveal(reports_some_bucket);
                lemma_came_from(sorted@, all, i);
                let n = choose|n: int| 0 <= n < all.len() && all[n] == sorted@[i];
                assert(reports_bucket_of(all[n], self.map@, sizes[n]));
            }
            assert forall|size: u64| #[trigger] self.map@.contains_key(size) implies exists|i: int|
                0 <= i < sorted@.len() && reports_bucket_of(
                    #[trigger] sorted@[i],
                    self.map@,
                    size,
                ) by {
                assert(sizes.to_set().contains(size));
                let n = choose|n: int| 0 <= n < sizes.len() && sizes[n] == size;
                lemma_came_from(all, sorted@, n);
                let i = choose|i: int| 0 <= i < sorted@.len() && sorted@[i] == all[n];
                assert(reports_bucket_of(sorted@[i], self.map@, size));
            }
        }
        sorted
    }
}

/// A list holds exactly the originals of its entries, and under each the texts of that entry, one
/// for one.
pub proof fn lemma_list_holds_its_entries(list: DuplicateList, original: Seq<char>)
    requires
        list.well_formed(),
    ensures
        list@.contains_key(original) <==> exists|i: int|
            0 <= i < list.entries@.len() && (#[trigger] list.entries@[i]).0@ == original,
        forall|i: int|
            0 <= i < list.entries@.len() && (#[trigger] list.entries@[i]).0@ == original ==> {
                &&& list@[original].len() == list.entries@[i].1@.len()
                &&& forall|k: int|
                    0 <= k < list.entries@[i].1@.len() ==> #[trigger] list@[original][k]
                        == list.entries@[i].1@[k]@
            },
{
    if list@.contains_key(original) {
        let place = list.places@[original] as int;
        assert(list.entries@[place].0@ == original);
    }
}

/// What is held under a size and a digest is the list that stands under them.
pub proof fn lemma_dumper_holds_its_lists(dumper: JsonDumper, size: u64, hash: Digest)
    ensures
        dumper@.contains_key((size, hash)) <==> dumper.map@.contains_key(size)
            && dumper.map@[size]@.contains_key((hash.first, hash.second)),
        dumper@.contains_key((size, hash)) ==> dumper@[(size, hash)]
            == dumper.map@[size]@[(hash.first, hash.second)]@,
{
}

/// An entry of the report stands for a size that is held. Gives the size.
proof fn lemma_size_of_entry(
    entries: Seq<(String, DuplicateBucketReport)>,
    map: Map<u64, DuplicateBucket>,
    a: int,
) -> (size: u64)
    requires
        reports_duplicates(entries, map),
        0 <= a < entries.len(),
    ensures
        map.contains_key(size),
        entries[a].0@ == decimal(size as nat),
        reports_duplicates_of_size(entries[a].1@, map[size]@),
{
    reveal(reports_some_bucket);
    assert(reports_some_bucket(entries[a], map));
    choose|size: u64| #[trigger] reports_bucket_of(entries[a], map, size)
}

/// An entry of the report of a size stands for a digest that is held. Gives the digest.
proof fn lemma_digest_of_entry(
    entries: Seq<(String, ListReport)>,
    bucket: Map<(u128, u128), DuplicateList>,
    b: int,
) -> (key: (u128, u128))
    requires
        reports_duplicates_of_size(entries, bucket),
        0 <= b < entries.len(),
    ensures
        bucket.contains_key(key),
        entries[b].0@ == hex(digest_of_key(key)@),
        reports_list(entries[b].1@, bucket[key]@),
{
    reveal(reports_some_list);
    assert(reports_some_list(entries[b], bucket));
    choose|key: (u128, u128)| #[trigger] reports_list_of(entries[b], bucket, key)
}

/// The report has one entry for a size that is held. Gives its place.
proof fn lemma_entry_of_size(
    entries: Seq<(String, DuplicateBucketReport)>,
    map: Map<u64, DuplicateBucket>,
    size: u64,
) -> (a: int)
    requires
        reports_duplicates(entries, map),
        map.contains_key(size),
    ensures
        0 <= a < entries.len(),
        entries[a].0@ == decimal(size as nat),
        reports_duplicates_of_size(entries[a].1@, map[size]@),
        forall|x: int|
            0 <= x < entries.len() && x != a ==> (#[trigger] entries[x]).0@ != entries[a].0@,
{
    lemma_texts_in_order_differ(entries);
    let a = choose|a: int|
        0 <= a < entries.len() && reports_bucket_of(#[trigger] entries[a], map, size);
    assert(reports_bucket_of(entries[a], map, size));
    a
}

/// The report of a size has one entry for a digest that is held. Gives its place.
proof fn lemma_entry_of_digest(
    entries: Seq<(String, ListReport)>,
    bucket: Map<(u128, u128), DuplicateList>,
    key: (u128, u128),
) -> (b: int)
    requires
        reports_duplicates_of_size(entries, bucket),
        bucket.contains_key(key),
    ensures
        0 <= b < entries.len(),
        entries[b].0@ == hex(digest_of_key(key)@),
        reports_list(entries[b].1@, bucket[key]@),
        forall|x: int|
            0 <= x < entries.len() && x != b ==> (#[trigger] entries[x]).0@ != entries[b].0@,
{
    lemma_texts_in_order_differ(entries);
    let b = choose|b: int|
        0 <= b < entries.len() && reports_list_of(#[trigger] entries[b], bucket, key);
    assert(reports_list_of(entries[b], bucket, key));
    b
}

/// The report of a list has one entry for an original that is held, with all its duplicates. Gives
/// its place.
proof fn lemma_entry_of_original(
    entries: Seq<(String, Vec<String>)>,
    list: Map<Seq<char>, Seq<Seq<char>>>,
    original: Seq<char>,
) -> (c: int)
    requires
        reports_list(entries, list),
        list.contains_key(original),
    ensures
        0 <= c < entries.len(),
        entries[c].0@ == original,
        entries[c].1@.len() == list[original].len(),
        forall|k: int|
            0 <= k < entries[c].1@.len() ==> (#[trigger] entries[c].1@[k])@ == list[original][k],
        forall|x: int|
            0 <= x < entries.len() && x != c ==> (#[trigger] entries[x]).0@ != entries[c].0@,
{
    lemma_texts_in_order_differ(entries);
    let c = choose|c: int| 0 <= c < entries.len() && (#[trigger] entries[c]).0@ == original;
    assert(reports_original(entries[c], list));
    lemma_texts_are_those_of_the_strings(entries[c].1@);
    c
}

/// The report lists every duplicate that came. For every size, digest and original that came it
/// has one entry under the size in decimal, the digest in hexadecimal and the original, and that
/// entry lists, in full and in the order in which they came, the duplicates that came with them.
/// Gives the place of the entry.
pub proof fn lemma_report_lists_all_that_came(
    dumper: JsonDumper,
    entries: Seq<(String, DuplicateBucketReport)>,
    found: Seq<Found>,
    size: u64,
    hash: Digest,
    original: Seq<char>,
) -> (place: (int, int, int))
    requires
        dumper@ == listed(found),
        reports_duplicates(entries, dumper.map@),
        exists|n: int|
            0 <= n < found.len() && (#[trigger] found[n]).0 == (size, hash) && found[n].1
                == original,
    ensures
        ({
            let (a, b, c) = place;
            let came = found.filter(|f: Found| f.0 == (size, hash) && f.1 == original);
            let digests = entries[a].1@;
            let originals = digests[b].1@;
            let duplicates = originals[c].1@;
            &&& 0 <= a < entries.len() && entries[a].0@ == decimal(size as nat)
            &&& 0 <= b < digests.len() && digests[b].0@ == hex(hash@)
            &&& 0 <= c < originals.len() && originals[c].0@ == original
            &&& duplicates.len() == came.len()
            &&& forall|k: int|
                0 <= k < came.len() ==> (#[trigger] duplicates[k])@ == (came[k]).2
            &&& forall|x: int|
                0 <= x < entries.len() && x != a ==> (#[trigger] entries[x]).0@ != entries[a].0@
            &&& forall|x: int|
                0 <= x < digests.len() && x != b ==> (#[trigger] digests[x]).0@ != digests[b].0@
            &&& forall|x: int|
                0 <= x < originals.len() && x != c ==> (#[trigger] originals[x]).0@
                    != originals[c].0@
        }),
{
    let key = (hash.first, hash.second);
    let same = |f: Found| f.0 == (size, hash) && f.1 == original;
    let came = found.filter(same);
    let n = choose|n: int|
        0 <= n < found.len() && (#[trigger] found[n]).0 == (size, hash) && found[n].1 == original;
    found.lemma_filter_contains(same, n);
    lemma_list_holds_what_came(found, (size, hash), original);
    assert(dumper@.contains_key((size, hash)));
    assert(digest_of_key(key) == hash);
    let a = lemma_entry_of_size(entries, dumper.map@, size);
    let b = lemma_entry_of_digest(entries[a].1@, dumper.map@[size]@, key);
    let c = lemma_entry_of_original(entries[a].1@[b].1@, dumper@[(size, hash)], original);
    (a, b, c)
}

/// The report lists nothing but what came: every entry stands under the size in decimal and the
/// digest in hexadecimal that some duplicates came with, and lists exactly those that came with
/// them and with its original. Gives the size and the digest.
pub proof fn lemma_report_lists_nothing_else(
    dumper: JsonDumper,
    entries: Seq<(String, DuplicateBucketReport)>,
    found: Seq<Found>,
    a: int,
    b: int,
    c: int,
) -> (key: (u64, Digest))
    requires
        dumper@ == listed(found),
        reports_duplicates(entries, dumper.map@),
        0 <= a < entries.len(),
        0 <= b < entries[a].1@.len(),
        0 <= c < entries[a].1@[b].1@.len(),
    ensures
        ({
            let entry = entries[a].1@[b].1@[c];
            let original = entry.0@;
            let came = found.filter(|f: Found| f.0 == key && f.1 == original);
            &&& entries[a].0@ == decimal(key.0 as nat)
            &&& entries[a].1@[b].0@ == hex(key.1@)
            &&& entry.1@.len() == came.len() > 0
            &&& forall|k: int| 0 <= k < came.len() ==> (#[trigger] entry.1@[k])@ == came[k].2
        }),
{
    let size = lemma_size_of_entry(entries, dumper.map@, a);
    let bucket = dumper.map@[size]@;
    let k = lemma_digest_of_entry(entries[a].1@, bucket, b);
    let hash = digest_of_key(k);
    let entry = entries[a].1@[b].1@[c];
    assert(reports_original(entry, bucket[k]@));
    assert(dumper@.contains_key((size, hash)));
    let key = (size, hash);
    let original = entry.0@;
    lemma_list_holds_what_came(found, key, original);
    let came = found.filter(|f: Found| f.0 == key && f.1 == original);
    assert(dumper@[key] == bucket[k]@);
    assert(texts(entry.1@) == came.map_values(|f: Found| f.2));
    lemma_texts_are_those_of_the_strings(entry.1@);
    assert(entry.1@.len() == came.len());
    assert forall|i: int| 0 <= i < came.len() implies (#[trigger] entry.1@[i])@ == came[i].2 by {
        assert(texts(entry.1@)[i] == entry.1@[i]@);
    }
    key
}

/// Sizes, digests and originals stand in the order of the bytes of their texts. No size stands
/// there without a digest, and no digest without an original.
pub proof fn lemma_report_is_in_order(
    dumper: JsonDumper,
    entries: Seq<(String, DuplicateBucketReport)>,
    found: Seq<Found>,
    a: int,
    b: int,
)
    requires
        dumper.well_formed(),
        dumper@ == listed(found),
        reports_duplicates(entries, dumper.map@),
        0 <= a < entries.len(),
        0 <= b < entries[a].1@.len(),
    ensures
        ({
            let digests = entries[a].1@;
            let originals = digests[b].1@;
            &&& forall|i: int, j: int|
                0 <= i < j < entries.len() ==> bytes_less(
                    encode_utf8((#[trigger] entries[i]).0@),
                    encode_utf8((#[trigger] entries[j]).0@),
                )
            &&& forall|i: int, j: int|
                0 <= i < j < digests.len() ==> bytes_less(
                    encode_utf8((#[trigger] digests[i]).0@),
                    encode_utf8((#[trigger] digests[j]).0@),
                )
            &&& forall|i: int, j: int|
                0 <= i < j < originals.len() ==> bytes_less(
                    encode_utf8((#[trigger] originals[i]).0@),
                    encode_utf8((#[trigger] originals[j]).0@),
                )
            &&& originals.len() > 0
        }),
        forall|i: int| 0 <= i < entries.len() ==> (#[trigger] entries[i]).1@.len() > 0,
{
    let size = lemma_size_of_entry(entries, dumper.map@, a);
    let bucket = dumper.map@[size]@;
    let k = lemma_digest_of_entry(entries[a].1@, bucket, b);
    let key = (size, digest_of_key(k));
    assert(dumper@.contains_key(key) && dumper@[key] == bucket[k]@);
    let original = lemma_listed_has_an_original(found, key);
    let c = lemma_entry_of_original(entries[a].1@[b].1@, bucket[k]@, original);
    lemma_order_is_that_of_the_bytes(entries);
    lemma_order_is_that_of_the_bytes(entries[a].1@);
    lemma_order_is_that_of_the_bytes(entries[a].1@[b].1@);
    assert forall|i: int| 0 <= i < entries.len() implies (#[trigger] entries[i]).1@.len() > 0 by {
        let s = lemma_size_of_entry(entries, dumper.map@, i);
        let digest = choose|digest: Digest| #[trigger] dumper@.contains_key((s, digest));
        let at = lemma_entry_of_digest(
            entries[i].1@,
            dumper.map@[s]@,
            (digest.first, digest.second),
        );
    }
}

/// Where something is listed under a size and a digest, there is an original. Gives one.
proof fn lemma_listed_has_an_original(found: Seq<Found>, key: (u64, Digest)) -> (original: Seq<
    char,
>)
    requires
        listed(found).contains_key(key),
    ensures
        listed(found)[key].contains_key(original),
    decreases found.len(),
{
    if found.last().0 == key {
        found.last().1
    } else {
        lemma_listed_has_an_original(found.drop_last(), key)
    }
}

} // verus!
