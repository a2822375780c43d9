//! Collecting files by size and digest, and listing what was collected.

use crate::bytes::bytes_less;
use crate::digest::Digest;
use crate::full_hash::FullHashMessage;
use crate::maps::{keys_of, lemma_keys_of};
use crate::path::{lossy_text, FilePath};
use crate::seqs::lemma_came_from;
use crate::text::{
    decimal, decimal_text, hex, lemma_decimal_value, lemma_hex_injective,
    lemma_texts_are_those_of_the_strings, texts,
};
use crate::text_order::{in_text_order, lemma_order_is_that_of_the_bytes, lemma_texts_in_order_differ, sort_entries};
use std::collections::BTreeMap;
use vstd::prelude::*;
use vstd::std_specs::iter::IteratorSpec;
use vstd::string::*;
use vstd::utf8::encode_utf8;

verus! {

broadcast use {
    vstd::std_specs::btree::group_btree_axioms,
    vstd::laws_cmp::group_laws_cmp,
};

/// Files of one size, by digest.
pub type Bucket = BTreeMap<(u128, u128), Vec<FilePath>>;

/// Collects files by size and digest.
pub struct TestCollector {
    pub map: BTreeMap<u64, Bucket>,
    /// How many files have been collected.
    pub collected: usize,
    /// How many different pairs of a size and a digest there are.
    pub hashes: usize,
}

/// The digest that is the key of a bucket.
pub open spec fn digest_of_key(key: (u128, u128)) -> Digest {
    Digest { first: key.0, second: key.1 }
}

/// Files by size and digest, with one more.
pub open spec fn with_file(
    files: Map<(u64, Digest), Seq<FilePath>>,
    message: FullHashMessage,
) -> Map<(u64, Digest), Seq<FilePath>> {
    files.insert(
        message.key(),
        if files.contains_key(message.key()) {
            files[message.key()].push(message.path)
        } else {
            seq![message.path]
        },
    )
}

/// What is shown while files are collected.
pub open spec fn progress_text(collected: nat, sizes: nat, hashes: nat) -> Seq<char> {
    "\r"@ + decimal(collected) + " Items collected in "@ + decimal(sizes)
        + " size buckets consisting of "@ + decimal(hashes) + " different hashes"@
}

impl View for TestCollector {
    type V = Map<(u64, Digest), Seq<FilePath>>;

    /// The files of every size and digest, in the order in which they came.
    open spec fn view(&self) -> Map<(u64, Digest), Seq<FilePath>> {
        Map::new(
            |k: (u64, Digest)|
                self.map@.contains_key(k.0) && self.map@[k.0]@.contains_key(
                    (k.1.first, k.1.second),
                ),
            |k: (u64, Digest)| self.map@[k.0]@[(k.1.first, k.1.second)]@,
        )
    }
}

impl TestCollector {
    /// Whether the counts are right: `hashes` is the number of sizes with a digest, and there is
    /// no size without a file.
    pub open spec fn well_formed(&self) -> bool {
        &&& self@.dom().finite()
        &&& self.hashes == self@.dom().len()
        &&& self.hashes <= self.collected
        &&& forall|size: u64| #[trigger]
            self.map@.contains_key(size) ==> exists|digest: Digest| #[trigger]
                self@.contains_key((size, digest))
    }

    pub fn new() -> (collector: TestCollector)
        ensures
            collector.well_formed(),
            collector@ == Map::<(u64, Digest), Seq<FilePath>>::empty(),
            collector.map@.dom() == Set::<u64>::empty(),
            collector.collected == 0,
    {
        let collector = TestCollector { map: BTreeMap::new(), collected: 0, hashes: 0 };
        assert(collector@ =~= Map::empty());
        collector
    }

    /// Collects a file.
    pub fn receive(&mut self, message: FullHashMessage)
        requires
            old(self).well_formed(),
            old(self).collected < usize::MAX,
        ensures
            final(self).well_formed(),
            final(self)@ == with_file(old(self)@, message),
            ({
                let key = (message.file_size, message.hash);
                final(self)@ == old(self)@.insert(
                    key,
                    if old(self)@.contains_key(key) {
                        old(self)@[key].push(message.path)
                    } else {
                        seq![message.path]
                    },
                )
            }),
            final(self).map@.dom() == old(self).map@.dom().insert(message.file_size),
            final(self).collected == old(self).collected + 1,
    {
        let ghost m = message;
        let ghost before = self@;
        let size: u64 = message.file_size;
        let key = (message.hash.first, message.hash.second);
        let mut bucket: Bucket = match self.map.remove(&size) {
            Some(bucket) => bucket,
            None => BTreeMap::new(),
        };
        let ghost old_bucket = bucket@;
        assert(old_bucket.contains_key(key) == before.contains_key(m.key()));
        let mut paths: Vec<FilePath> = match bucket.remove(&key) {
            Some(paths) => paths,
            None => {
                self.hashes = self.hashes + 1;
                Vec::new()
            },
        };
        paths.push(message.path);
        assert(before.contains_key(m.key()) ==> paths@ =~= before[m.key()].push(m.path));
        assert(!before.contains_key(m.key()) ==> paths@ =~= seq![m.path]);
        bucket.insert(key, paths);
        self.map.insert(size, bucket);
        self.collected = self.collected + 1;
        assert(self.map@.dom() =~= old(self).map@.dom().insert(size));
        assert forall|k: (u64, Digest)| self@.contains_key(k) <==> with_file(
            before,
            m,
        ).contains_key(k) by {
            if k.0 == size && (k.1.first, k.1.second) == key {
                assert(k == m.key());
            }
        }
        assert(self@ =~= with_file(before, m));
        assert(self@.dom() =~= before.dom().insert(m.key()));
        assert forall|s: u64| #[trigger] self.map@.contains_key(s) implies exists|digest: Digest|
            #[trigger] self@.contains_key((s, digest)) by {
            if s == size {
                assert(self@.contains_key((s, m.hash)));
            } else {
                let digest = choose|digest: Digest| #[trigger] before.contains_key((s, digest));
                assert(self@.contains_key((s, digest)));
            }
        }
    }

    /// What is shown while files are collected.
    pub fn progress(&self) -> (text: String)
        requires
            self.well_formed(),
        ensures
            text@ == progress_text(
                self.collected as nat,
                self.map@.dom().len(),
                self@.dom().len(),
            ),
            text@ == "\r"@ + decimal(self.collected as nat) + " Items collected in "@ + decimal(
                self.map@.dom().len(),
            ) + " size buckets consisting of "@ + decimal(self@.dom().len())
                + " different hashes"@,
    {
        let mut text = "\r".to_owned();
        text.append(decimal_text(self.collected as u64).as_str());
        text.append(" Items collected in ");
        text.append(decimal_text(self.map.len() as u64).as_str());
        text.append(" size buckets consisting of ");
        text.append(decimal_text(self.hashes as u64).as_str());
        text.append(" different hashes");
        text
    }
}

/// The files after messages have come, from none.
pub open spec fn collected_files(messages: Seq<FullHashMessage>) -> Map<
    (u64, Digest),
    Seq<FilePath>,
>
    decreases messages.len(),
{
    if messages.len() == 0 {
        Map::empty()
    } else {
        with_file(collected_files(messages.drop_last()), messages.last())
    }
}

/// Under every size and digest stand exactly the files that came with them, in the order in which
/// they came.
pub proof fn lemma_collected_is_what_came(messages: Seq<FullHashMessage>, key: (u64, Digest))
    ensures
        ({
            let came = messages.filter(|m: FullHashMessage| m.key() == key);
            &&& collected_files(messages).contains_key(key) <==> came.len() > 0
            &&& came.len() > 0 ==> collected_files(messages)[key] == came.map_values(
                |m: FullHashMessage| m.path,
            )
        }),
    decreases messages.len(),
{
    let same = |m: FullHashMessage| m.key() == key;
    let path = |m: FullHashMessage| m.path;
    if messages.len() == 0 {
        assert(messages.filter(same) =~= seq![]);
    } else {
        let front = messages.drop_last();
        let last = messages.last();
        lemma_collected_is_what_came(front, key);
        assert(messages =~= front.push(last));
        front.lemma_filter_push(last, same);
        if same(last) {
            assert(messages.filter(same).map_values(path) =~= front.filter(same).map_values(
                path,
            ).push(last.path));
            if front.filter(same).len() == 0 {
                assert(messages.filter(same).map_values(path) =~= seq![last.path]);
            }
        }
    }
}

/// How paths read.
pub open spec fn path_texts(paths: Seq<FilePath>) -> Seq<Seq<char>> {
    paths.map_values(|path: FilePath| lossy_text(path@))
}

/// A list of the files of a bucket: digests in hexadecimal, with how the paths read.
pub type BucketReport = Vec<(String, Vec<String>)>;

/// A list of all files: sizes in decimal, with the lists of their buckets.
pub type Report = Vec<(String, BucketReport)>;

/// Whether an entry lists the files of a bucket that have a digest.
pub open spec fn reports_digest(
    entry: (String, Vec<String>),
    bucket: Map<(u128, u128), Vec<FilePath>>,
    key: (u128, u128),
) -> bool {
    &&& bucket.contains_key(key)
    &&& entry.0@ == hex(digest_of_key(key)@)
    &&& texts(entry.1@) == path_texts(bucket[key]@)
}

/// Whether an entry lists the files of a bucket that have some digest.
#[verifier::opaque]
pub open spec fn reports_some_digest(
    entry: (String, Vec<String>),
    bucket: Map<(u128, u128), Vec<FilePath>>,
) -> bool {
    exists|key: (u128, u128)| #[trigger] reports_digest(entry, bucket, key)
}

/// Whether a list names exactly the digests of a bucket, in the order of their texts, and the files
/// under each.
pub open spec fn reports_bucket(
    entries: Seq<(String, Vec<String>)>,
    bucket: Map<(u128, u128), Vec<FilePath>>,
) -> bool {
    &&& in_text_order(entries)
    &&& forall|i: int|
        #![trigger entries[i]]
        0 <= i < entries.len() ==> reports_some_digest(entries[i], bucket)
    &&& forall|key: (u128, u128)| #[trigger]
        bucket.contains_key(key) ==> exists|i: int|
            0 <= i < entries.len() && reports_digest(#[trigger] entries[i], bucket, key)
}

/// Whether an entry lists the files of a size.
pub open spec fn reports_size(
    entry: (String, BucketReport),
    map: Map<u64, Bucket>,
    size: u64,
) -> bool {
    &&& map.contains_key(size)
    &&& entry.0@ == decimal(size as nat)
    &&& reports_bucket(entry.1@, map[size]@)
}

/// Whether an entry lists the files of some size.
#[verifier::opaque]
pub open spec fn reports_some_size(entry: (String, BucketReport), map: Map<u64, Bucket>) -> bool {
    exists|size: u64| #[trigger] reports_size(entry, map, size)
}

/// Whether a list names exactly the sizes that were collected, in the order of their texts, and the
/// bucket of each.
pub open spec fn reports_all(entries: Seq<(String, BucketReport)>, map: Map<u64, Bucket>) -> bool {
    &&& in_text_order(entries)
    &&& forall|i: int|
        #![trigger entries[i]]
        0 <= i < entries.len() ==> reports_some_size(entries[i], map)
    &&& forall|size: u64| #[trigger]
        map.contains_key(size) ==> exists|i: int|
            0 <= i < entries.len() && reports_size(#[trigger] entries[i], map, size)
}

/// What stands under the text of a size is the list of its bucket.
pub proof fn lemma_report_is_read_back(
    entries: Seq<(String, BucketReport)>,
    map: Map<u64, Bucket>,
    i: int,
    size: u64,
)
    requires
        reports_all(entries, map),
        0 <= i < entries.len(),
        entries[i].0@ == decimal(size as nat),
    ensures
        map.contains_key(size),
        reports_bucket(entries[i].1@, map[size]@),
{
    reveal(reports_some_size);
    assert(reports_some_size(entries[i], map));
    let s = choose|s: u64| #[trigger] reports_size(entries[i], map, s);
    lemma_decimal_value(s as nat);
    lemma_decimal_value(size as nat);
}

/// What stands under the text of a digest are the files that have it.
pub proof fn lemma_bucket_report_is_read_back(
    entries: Seq<(String, Vec<String>)>,
    bucket: Map<(u128, u128), Vec<FilePath>>,
    i: int,
    key: (u128, u128),
)
    requires
        reports_bucket(entries, bucket),
        0 <= i < entries.len(),
        entries[i].0@ == hex(digest_of_key(key)@),
    ensures
        bucket.contains_key(key),
        texts(entries[i].1@) == path_texts(bucket[key]@),
{
    reveal(reports_some_digest);
    assert(reports_some_digest(entries[i], bucket));
    let k = choose|k: (u128, u128)| #[trigger] reports_digest(entries[i], bucket, k);
    let a = digest_of_key(k);
    let b = digest_of_key(key);
    lemma_hex_injective(a@, b@);
    crate::digest::lemma_digest_bytes(a, a@);
    crate::digest::lemma_digest_bytes(b, b@);
    assert(k == key);
}

/// How paths read.
fn texts_of(paths: &Vec<FilePath>) -> (list: Vec<String>)
    ensures
        texts(list@) == path_texts(paths@),
        list@.len() == paths@.len(),
        forall|i: int| 0 <= i < list@.len() ==> (#[trigger] list@[i])@ == lossy_text(paths@[i]@),
{
    let mut list: Vec<String> = Vec::new();
    let mut i: usize = 0;
    while i < paths.len()
        invariant
            i <= paths@.len(),
            texts(list@) == path_texts(paths@.take(i as int)),
        decreases paths@.len() - i,
    {
        let ghost before = list@;
        list.push(paths[i].to_text());
        assert(texts(list@) =~= texts(before).push(lossy_text(paths@[i as int]@)));
        assert(paths@.take(i + 1) =~= paths@.take(i as int).push(paths@[i as int]));
        assert(path_texts(paths@.take(i + 1)) =~= path_texts(paths@.take(i as int)).push(
            lossy_text(paths@[i as int]@),
        ));
        i = i + 1;
    }
    assert(paths@.take(i as int) =~= paths@);
    proof {
        lemma_texts_are_those_of_the_paths(list@, paths@);
    }
    list
}

/// Lists the files of a bucket.
fn report_bucket(bucket: &Bucket) -> (entries: BucketReport)
    ensures
        reports_bucket(entries@, bucket@),
{
    let mut entries: BucketReport = Vec::new();
    let walk = bucket.iter();
    let ghost items = walk.remaining();
    let ghost keys = keys_of(items);
    for (key, paths) in it: walk
        invariant
            it.seq() == items,
            keys == keys_of(items),
            items == bucket.iter().remaining(),
            entries@.len() == it.index(),
            forall|i: int|
                #![trigger entries@[i]]
                0 <= i < entries@.len() ==> entries@[i].0@ == hex(digest_of_key(keys[i])@)
                    && texts(entries@[i].1@) == path_texts(bucket@[keys[i]]@),
    {
        let digest = Digest { first: key.0, second: key.1 };
        assert(items[it.index()] == (key, paths));
        assert(bucket@.contains_key(*items[it.index()].0));
        entries.push((digest.to_hex(), texts_of(paths)));
    }
    let ghost list = entries@;
    proof {
        lemma_keys_of(items, bucket@);
        assert forall|i: int, j: int| 0 <= i < j < list.len() implies (#[trigger] list[i]).0@ != (
        #[trigger] list[j]).0@ by {
            let a = digest_of_key(keys[i]);
            let b = digest_of_key(keys[j]);
            lemma_hex_injective(a@, b@);
            crate::digest::lemma_digest_bytes(a, a@);
            crate::digest::lemma_digest_bytes(b, b@);
        }
    }
    let sorted = sort_entries(entries);
    proof {
        assert forall|i: int| 0 <= i < list.len() implies reports_digest(
            #[trigger] list[i],
            bucket@,
            keys[i],
        ) by {
            assert(keys.contains(keys[i]));
            assert(keys.to_set().contains(keys[i]));
        }
        assert forall|i: int|
            #![trigger sorted@[i]]
            0 <= i < sorted@.len() implies reports_some_digest(sorted@[i], bucket@) by {
            reveal(reports_some_digest);
            lemma_came_from(sorted@, list, i);
            let n = choose|n: int| 0 <= n < list.len() && list[n] == sorted@[i];
            assert(reports_digest(list[n], bucket@, keys[n]));
        }
        assert forall|key: (u128, u128)| #[trigger] bucket@.contains_key(key) implies exists|i: int|
            0 <= i < sorted@.len() && reports_digest(#[trigger] sorted@[i], bucket@, key) by {
            assert(keys.to_set().contains(key));
            let n = choose|n: int| 0 <= n < keys.len() && keys[n] == key;
            lemma_came_from(list, sorted@, n);
            let i = choose|i: int| 0 <= i < sorted@.len() && sorted@[i] == list[n];
            assert(reports_digest(sorted@[i], bucket@, key));
        }
    }
    sorted
}

impl TestCollector {
    /// Lists all that was collected.
    pub fn report(&self) -> (entries: Report)
        ensures
            reports_all(entries@, self.map@),
            forall|i: int, j: int|
                0 <= i < j < entries@.len() ==> bytes_less(
                    encode_utf8((#[trigger] entries@[i]).0@),
                    encode_utf8((#[trigger] entries@[j]).0@),
                ),
    {
        let mut entries: Report = Vec::new();
        let walk = self.map.iter();
        let ghost items = walk.remaining();
        let ghost sizes = keys_of(items);
        for (size, bucket) in it: walk
            invariant
                it.seq() == items,
                sizes == keys_of(items),
                items == self.map.iter().remaining(),
                entries@.len() == it.index(),
                forall|i: int|
                    #![trigger entries@[i]]
                    0 <= i < entries@.len() ==> entries@[i].0@ == decimal(sizes[i] as nat)
                        && reports_bucket(entries@[i].1@, self.map@[sizes[i]]@),
        {
            assert(items[it.index()] == (size, bucket));
            assert(self.map@.contains_key(*items[it.index()].0));
            entries.push((decimal_text(*size), report_bucket(bucket)));
        }
        let ghost list = entries@;
        proof {
            lemma_keys_of(items, self.map@);
            assert forall|i: int, j: int| 0 <= i < j < list.len() implies (#[trigger] list[i]).0@
                != (#[trigger] list[j]).0@ by {
                lemma_decimal_value(sizes[i] as nat);
                lemma_decimal_value(sizes[j] as nat);
            }
        }
        let sorted = sort_entries(entries);
        proof {
            assert forall|i: int| 0 <= i < list.len() implies reports_size(
                #[trigger] list[i],
                self.map@,
                sizes[i],
            ) by {
                assert(sizes.contains(sizes[i]));
                assert(sizes.to_set().contains(sizes[i]));
            }
            assert forall|i: int|
                #![trigger sorted@[i]]
                0 <= i < sorted@.len() implies reports_some_size(sorted@[i], self.map@) by {
                reveal(reports_some_size);
                lemma_came_from(sorted@, list, i);
                let n = choose|n: int| 0 <= n < list.len() && list[n] == sorted@[i];
                assert(reports_size(list[n], self.map@, sizes[n]));
            }
            assert forall|size: u64| #[trigger] self.map@.contains_key(size) implies exists|i: int|
                0 <= i < sorted@.len() && reports_size(#[trigger] sorted@[i], self.map@, size) by {
                assert(sizes.to_set().contains(size));
                let n = choose|n: int| 0 <= n < sizes.len() && sizes[n] == size;
                lemma_came_from(list, sorted@, n);
                let i = choose|i: int| 0 <= i < sorted@.len() && sorted@[i] == list[n];
                assert(reports_size(sorted@[i], self.map@, size));
            }
        }
        sorted
    }
}

/// Where texts are how paths read, there are as many, and each is how the path in its place reads.
pub proof fn lemma_texts_are_those_of_the_paths(list: Seq<String>, paths: Seq<FilePath>)
    ensures
        texts(list) == path_texts(paths) <==> list.len() == paths.len() && forall|i: int|
            0 <= i < list.len() ==> (#[trigger] list[i])@ == lossy_text(paths[i]@),
{
    lemma_texts_are_those_of_the_strings(list);
    if texts(list) == path_texts(paths) {
        assert forall|i: int| 0 <= i < list.len() implies (#[trigger] list[i])@ == lossy_text(
            paths[i]@,
        ) by {
            assert(texts(list)[i] == path_texts(paths)[i]);
        }
    }
    if list.len() == paths.len() && forall|i: int|
        0 <= i < list.len() ==> (#[trigger] list[i])@ == lossy_text(paths[i]@) {
        assert(texts(list) =~= path_texts(paths));
    }
}

/// What is held under a size and a digest are the files that stand under them.
pub proof fn lemma_collector_holds_its_files(collector: TestCollector, size: u64, hash: Digest)
    ensures
        collector@.contains_key((size, hash)) <==> collector.map@.contains_key(size)
            && collector.map@[size]@.contains_key((hash.first, hash.second)),
        collector@.contains_key((size, hash)) ==> collector@[(size, hash)]
            == collector.map@[size]@[(hash.first, hash.second)]@,
{
}

/// The report lists every file that was collected. For every size and digest that came it has one
/// entry under the size in decimal and the digest in hexadecimal, and that entry lists, in full
/// and in the order in which they came, how the paths that came with them read. Gives the place of
/// the entry.
pub proof fn lemma_report_lists_all_that_was_collected(
    collector: TestCollector,
    entries: Seq<(String, BucketReport)>,
    messages: Seq<FullHashMessage>,
    size: u64,
    hash: Digest,
) -> (place: (int, int))
    requires
        collector@ == collected_files(messages),
        reports_all(entries, collector.map@),
        exists|n: int|
            0 <= n < messages.len() && (#[trigger] messages[n]).file_size == size
                && messages[n].hash == hash,
    ensures
        ({
            let (a, b) = place;
            let came = messages.filter(|m: FullHashMessage| m.file_size == size && m.hash == hash);
            let digests = entries[a].1@;
            let files = digests[b].1@;
            &&& 0 <= a < entries.len() && entries[a].0@ == decimal(size as nat)
            &&& 0 <= b < digests.len() && digests[b].0@ == hex(hash@)
            &&& files.len() == came.len()
            &&& forall|k: int|
                0 <= k < came.len() ==> (#[trigger] files[k])@ == lossy_text(came[k].path@)
            &&& forall|x: int|
                0 <= x < entries.len() && x != a ==> (#[trigger] entries[x]).0@ != entries[a].0@
            &&& forall|x: int|
                0 <= x < digests.len() && x != b ==> (#[trigger] digests[x]).0@ != digests[b].0@
        }),
{
    let key = (size, hash);
    let map = collector.map@;
    let same = |m: FullHashMessage| m.file_size == size && m.hash == hash;
    assert(same =~= (|m: FullHashMessage| m.key() == key));
    lemma_collected_is_what_came(messages, key);
    let n = choose|n: int|
        0 <= n < messages.len() && (#[trigger] messages[n]).file_size == size && messages[n].hash
            == hash;
    messages.lemma_filter_contains(same, n);
    let came = messages.filter(same);
    assert(collector@.contains_key(key));
    lemma_texts_in_order_differ(entries);
    let a = choose|a: int|
        0 <= a < entries.len() && reports_size(#[trigger] entries[a], map, size);
    assert(reports_size(entries[a], map, size));
    let digests = entries[a].1@;
    let k = (hash.first, hash.second);
    assert(digest_of_key(k) == hash);
    assert(map[size]@.contains_key(k));
    lemma_texts_in_order_differ(digests);
    let b = choose|b: int|
        0 <= b < digests.len() && reports_digest(#[trigger] digests[b], map[size]@, k);
    assert(reports_digest(digests[b], map[size]@, k));
    let files = digests[b].1@;
    lemma_texts_are_those_of_the_paths(files, map[size]@[k]@);
    assert(map[size]@[k]@ == came.map_values(|m: FullHashMessage| m.path));
    assert(came.map_values(|m: FullHashMessage| m.path).len() == came.len());
    assert forall|i: int| 0 <= i < came.len() implies (#[trigger] files[i])@ == lossy_text(
        came[i].path@,
    ) by {
        assert(map[size]@[k]@[i] == came[i].path);
    }
    (a, b)
}

/// An entry of the report stands for a size that is held. Gives the size.
proof fn lemma_size_of_entry(
    entries: Seq<(String, BucketReport)>,
    map: Map<u64, Bucket>,
    a: int,
) -> (size: u64)
    requires
        reports_all(entries, map),
        0 <= a < entries.len(),
    ensures
        map.contains_key(size),
        entries[a].0@ == decimal(size as nat),
        reports_bucket(entries[a].1@, map[size]@),
{
    reveal(reports_some_size);
    assert(reports_some_size(entries[a], map));
    choose|size: u64| #[trigger] reports_size(entries[a], map, size)
}

/// An entry of the report of a size stands for a digest that is held. Gives the digest.
proof fn lemma_digest_of_entry(
    entries: Seq<(String, Vec<String>)>,
    bucket: Map<(u128, u128), Vec<FilePath>>,
    b: int,
) -> (key: (u128, u128))
    requires
        reports_bucket(entries, bucket),
        0 <= b < entries.len(),
    ensures
        reports_digest(entries[b], bucket, key),
{
    reveal(reports_some_digest);
    assert(reports_some_digest(entries[b], bucket));
    choose|key: (u128, u128)| #[trigger] reports_digest(entries[b], bucket, key)
}

/// The report lists nothing but what was collected: every entry stands under the size in decimal
/// and the digest in hexadecimal that some files came with, and lists exactly those. Gives the
/// size and the digest.
pub proof fn lemma_report_lists_nothing_but_what_was_collected(
    collector: TestCollector,
    entries: Seq<(String, BucketReport)>,
    messages: Seq<FullHashMessage>,
    a: int,
    b: int,
) -> (key: (u64, Digest))
    requires
        collector@ == collected_files(messages),
        reports_all(entries, collector.map@),
        0 <= a < entries.len(),
        0 <= b < entries[a].1@.len(),
    ensures
        ({
            let files = entries[a].1@[b].1@;
            let (size, hash) = key;
            let came = messages.filter(|m: FullHashMessage| m.file_size == size && m.hash == hash);
            &&& entries[a].0@ == decimal(size as nat)
            &&& entries[a].1@[b].0@ == hex(hash@)
            &&& files.len() == came.len() > 0
            &&& forall|k: int|
                0 <= k < came.len() ==> (#[trigger] files[k])@ == lossy_text(came[k].path@)
        }),
{
    let map = collector.map@;
    let size = lemma_size_of_entry(entries, map, a);
    let digests = entries[a].1@;
    let k = lemma_digest_of_entry(digests, map[size]@, b);
    let hash = digest_of_key(k);
    let key = (size, hash);
    let same = |m: FullHashMessage| m.file_size == size && m.hash == hash;
    assert(same =~= (|m: FullHashMessage| m.key() == key));
    lemma_collected_is_what_came(messages, key);
    let came = messages.filter(same);
    assert(collector@.contains_key(key));
    let files = digests[b].1@;
    lemma_texts_are_those_of_the_paths(files, map[size]@[k]@);
    assert(map[size]@[k]@ == came.map_values(|m: FullHashMessage| m.path));
    assert(came.map_values(|m: FullHashMessage| m.path).len() == came.len());
    assert forall|i: int| 0 <= i < came.len() implies (#[trigger] files[i])@ == lossy_text(
        came[i].path@,
    ) by {
        assert(map[size]@[k]@[i] == came[i].path);
    }
    key
}

/// Sizes and digests stand in the order of the bytes of their texts, and no size stands there
/// without a digest.
pub proof fn lemma_report_is_in_order(
    collector: TestCollector,
    entries: Seq<(String, BucketReport)>,
    a: int,
)
    requires
        collector.well_formed(),
        reports_all(entries, collector.map@),
        0 <= a < entries.len(),
    ensures
        ({
            let digests = entries[a].1@;
            &&& forall|i: int, j: int|
                0 <= i < j < entries.len() ==> bytes_less(
                    encode_utf8((#[trigger] entries[i]).0@),
                    encode_utf8((#[trigger] entries[j]).0@),
                )
            &&& forall|i: int, j: int|
                0 <= i < j < digests.len() ==> bytes_less(
                    encode_utf8((#[trigger] digests[i]).0@),
                    encode_utf8((#[trigger] digests[j]).0@),
                )
            &&& digests.len() > 0
        }),
{
    let size = lemma_size_of_entry(entries, collector.map@, a);
    let digest = choose|digest: Digest| #[trigger] collector@.contains_key((size, digest));
    assert(collector.map@[size]@.contains_key((digest.first, digest.second)));
    lemma_order_is_that_of_the_bytes(entries);
    lemma_order_is_that_of_the_bytes(entries[a].1@);
}

} // verus!
