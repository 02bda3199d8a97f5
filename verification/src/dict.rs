//! The digit-keyed dictionary: words grouped by their digit key, each bucket
//! holding its words in word-list order.
use crate::keypad::key_of;
use crate::keypad::word_to_number;
use vstd::prelude::*;

verus! {

/// The views of a sequence of words.
pub open spec fn word_views(ws: Seq<String>) -> Seq<Seq<char>> {
    ws.map_values(|w: String| w@)
}

/// The bucket a word list yields for one digit key: the words whose key it
/// is, in list order.
pub open spec fn bucket_of(ws: Seq<Seq<char>>, k: Seq<u8>) -> Seq<Seq<char>> {
    ws.filter(|w: Seq<char>| key_of(w) == k)
}

/// The abstract dictionary: digit keys mapped to buckets of words.
pub type Dict = Map<Seq<u8>, Seq<Seq<char>>>;

/// Every word of every bucket encodes to the bucket's key.
pub open spec fn dict_wf(dict: Dict) -> bool {
    forall|k: Seq<u8>, j: int|
        dict.contains_key(k) && 0 <= j < dict[k].len() ==> key_of(#[trigger] dict[k][j]) == k
}

/// One digit key together with its bucket of words.
pub struct DictEntry {
    pub key: Vec<u8>,
    pub words: Vec<String>,
}

/// A dictionary: for each digit key that some word encodes to, the bucket of
/// those words, in word-list order.
pub struct Dictionary {
    pub entries: Vec<DictEntry>,
}

impl DictEntry {
    /// The bucket is not empty and every word of it encodes to the key.
    pub open spec fn wf(self) -> bool {
        &&& self.words@.len() > 0
        &&& forall|j: int|
            0 <= j < self.words@.len() ==> key_of(#[trigger] self.words@[j]@) == self.key@
    }
}

/// No two entries share a key.
pub open spec fn unique_keys(es: Seq<DictEntry>) -> bool {
    forall|i: int, j: int| 0 <= i < j < es.len() ==> es[i].key@ != es[j].key@
}

/// Some entry has the given key.
pub open spec fn has_entry(es: Seq<DictEntry>, k: Seq<u8>) -> bool {
    exists|i: int| 0 <= i < es.len() && es[i].key@ == k
}

/// The mapping from digit keys to buckets that a sequence of entries stands
/// for.
pub open spec fn entries_map(es: Seq<DictEntry>) -> Map<Seq<u8>, Seq<Seq<char>>>
    decreases es.len(),
{
    if es.len() == 0 {
        Map::empty()
    } else {
        entries_map(es.drop_last()).insert(es.last().key@, word_views(es.last().words@))
    }
}

impl View for Dictionary {
    type V = Map<Seq<u8>, Seq<Seq<char>>>;

    open spec fn view(&self) -> Self::V {
        entries_map(self.entries@)
    }
}

proof fn lemma_entries_map_domain(es: Seq<DictEntry>, k: Seq<u8>)
    ensures
        entries_map(es).contains_key(k) <==> has_entry(es, k),
    decreases es.len(),
{
    if es.len() > 0 {
        lemma_entries_map_domain(es.drop_last(), k);
        if has_entry(es.drop_last(), k) {
            let i = choose|i: int| 0 <= i < es.drop_last().len() && es.drop_last()[i].key@ == k;
            assert(es[i].key@ == k);
        }
        if es.last().key@ == k {
            assert(es[es.len() - 1].key@ == k);
        }
        if has_entry(es, k) && es.last().key@ != k {
            let i = choose|i: int| 0 <= i < es.len() && es[i].key@ == k;
            assert(es.drop_last()[i].key@ == k);
        }
    }
}

proof fn lemma_entries_map_index(es: Seq<DictEntry>, i: int)
    requires
        unique_keys(es),
        0 <= i < es.len(),
    ensures
        entries_map(es).contains_key(es[i].key@),
        entries_map(es)[es[i].key@] == word_views(es[i].words@),
    decreases es.len(),
{
    if i < es.len() - 1 {
        assert(unique_keys(es.drop_last())) by {
            assert(forall|m: int, n: int|
                0 <= m < n < es.drop_last().len() ==> es.drop_last()[m] == es[m]
                    && es.drop_last()[n] == es[n]);
        }
        assert(es.drop_last()[i] == es[i]);
        lemma_entries_map_index(es.drop_last(), i);
        assert(es[es.len() - 1].key@ != es[i].key@);
    }
}

/// Compares two digit keys.
#[verifier::loop_isolation(false)]
fn keys_equal(a: &Vec<u8>, b: &Vec<u8>) -> (r: bool)
    ensures
        r == (a@ == b@),
{
    if a.len() != b.len() {
        return false;
    }
    let n = a.len();
    let mut i: usize = 0;
    while i < n
        invariant
            i <= n,
            forall|m: int| 0 <= m < i ==> a@[m] == b@[m],
        decreases n - i,
    {
        if a[i] != b[i] {
            return false;
        }
        i = i + 1;
    }
    proof {
        assert(a@ =~= b@);
    }
    true
}

/// The index of the entry with the given key, if the dictionary has one.
#[verifier::loop_isolation(false)]
fn find_entry(es: &Vec<DictEntry>, key: &Vec<u8>) -> (r: Option<usize>)
    ensures
        match r {
            Some(i) => i < es@.len() && es@[i as int].key@ == key@,
            None => !has_entry(es@, key@),
        },
{
    let n = es.len();
    let mut i: usize = 0;
    while i < n
        invariant
            i <= n,
            forall|m: int| 0 <= m < i ==> es@[m].key@ != key@,
        decreases n - i,
    {
        if keys_equal(&es[i].key, key) {
            return Some(i);
        }
        i = i + 1;
    }
    None
}

proof fn lemma_bucket_push(ws: Seq<Seq<char>>, w: Seq<char>, k: Seq<u8>)
    ensures
        bucket_of(ws.push(w), k) == if key_of(w) == k {
            bucket_of(ws, k).push(w)
        } else {
            bucket_of(ws, k)
        },
{
    reveal_with_fuel(Seq::<_>::filter, 2);
    assert(ws.push(w).drop_last() =~= ws);
    assert(ws.push(w).last() == w);
}

proof fn lemma_has_entry_same_keys(a: Seq<DictEntry>, b: Seq<DictEntry>, k: Seq<u8>)
    requires
        a.len() == b.len(),
        forall|i: int| 0 <= i < a.len() ==> a[i].key@ == b[i].key@,
    ensures
        has_entry(a, k) == has_entry(b, k),
{
    if has_entry(a, k) {
        let i = choose|i: int| 0 <= i < a.len() && a[i].key@ == k;
        assert(b[i].key@ == k);
    }
    if has_entry(b, k) {
        let i = choose|i: int| 0 <= i < b.len() && b[i].key@ == k;
        assert(a[i].key@ == k);
    }
}

/// Builds the dictionary from the word list: each word joins the bucket of
/// its digit key, a bucket being created on the key's first occurrence, so
/// every bucket keeps word-list order and duplicates stay.
#[verifier::loop_isolation(false)]
pub fn load_dict(words: &Vec<String>) -> (d: Dictionary)
    ensures
        d.wf(),
        forall|k: Seq<u8>|
            #[trigger] d@.contains_key(k) <==> bucket_of(word_views(words@), k).len() > 0,
        forall|k: Seq<u8>|
            #[trigger] d@.contains_key(k) ==> d@[k] == bucket_of(word_views(words@), k),
{
    let n = words.len();
    let mut es: Vec<DictEntry> = Vec::new();
    let mut wi: usize = 0;
    while wi < n
        invariant
            wi <= n,
            unique_keys(es@),
            forall|e: int| 0 <= e < es@.len() ==> (#[trigger] es@[e]).wf(),
            forall|e: int|
                0 <= e < es@.len() ==> word_views((#[trigger] es@[e]).words@) == bucket_of(
                    word_views(words@.take(wi as int)),
                    es@[e].key@,
                ),
            forall|k: Seq<u8>|
                has_entry(es@, k) <==> #[trigger] bucket_of(
                    word_views(words@.take(wi as int)),
                    k,
                ).len() > 0,
        decreases n - wi,
    {
        let w = words[wi].clone();
        let key = word_to_number(w.as_str());
        let ghost ws_pre = word_views(words@.take(wi as int));
        let ghost ws_post = word_views(words@.take(wi as int + 1));
        proof {
            assert(ws_post =~= ws_pre.push(w@));
        }
        match find_entry(&es, &key) {
            Some(i) => {
                let ghost es_pre = es@;
                es[i].words.push(w);
                proof {
                    let i_ = i as int;
                    assert(forall|e: int|
                        0 <= e < es@.len() ==> (#[trigger] es@[e]).key@ == es_pre[e].key@);
                    assert(es@[i_].words@ == es_pre[i_].words@.push(w));
                    assert(word_views(es@[i_].words@) =~= word_views(es_pre[i_].words@).push(
                        w@,
                    ));
                    assert forall|e: int| 0 <= e < es@.len() implies word_views(
                        (#[trigger] es@[e]).words@,
                    ) == bucket_of(ws_post, es@[e].key@) by {
                        lemma_bucket_push(ws_pre, w@, es@[e].key@);
                        if e != i_ {
                            assert(es@[e] == es_pre[e]);
                            assert(es_pre[e].key@ != key_of(w@));
                        }
                    }
                    assert forall|k: Seq<u8>| has_entry(es@, k) <==> #[trigger] bucket_of(
                        ws_post,
                        k,
                    ).len() > 0 by {
                        lemma_bucket_push(ws_pre, w@, k);
                        lemma_has_entry_same_keys(es@, es_pre, k);
                        if k == key_of(w@) {
                            assert(es@[i_].key@ == k);
                        }
                    }
                }
            },
            None => {
                let mut bucket: Vec<String> = Vec::new();
                bucket.push(w);
                let ghost es_pre = es@;
                es.push(DictEntry { key, words: bucket });
                proof {
                    let last = es@.len() - 1;
                    assert(es@[last].key@ == key_of(w@));
                    assert(word_views(es@[last].words@) =~= seq![w@]);
                    assert(unique_keys(es@)) by {
                        assert(forall|m: int|
                            0 <= m < es_pre.len() ==> (#[trigger] es_pre[m]).key@ != key@);
                        assert(forall|m: int| 0 <= m < es_pre.len() ==> es@[m] == es_pre[m]);
                    }
                    assert(bucket_of(ws_pre, key@) =~= Seq::<Seq<char>>::empty());
                    assert forall|e: int| 0 <= e < es@.len() implies word_views(
                        (#[trigger] es@[e]).words@,
                    ) == bucket_of(ws_post, es@[e].key@) by {
                        lemma_bucket_push(ws_pre, w@, es@[e].key@);
                        if e != last {
                            assert(es@[e] == es_pre[e]);
                            assert(es_pre[e].key@ != key_of(w@));
                        } else {
                            assert(bucket_of(ws_post, key@) =~= seq![w@]);
                        }
                    }
                    assert forall|k: Seq<u8>| has_entry(es@, k) <==> #[trigger] bucket_of(
                        ws_post,
                        k,
                    ).len() > 0 by {
                        lemma_bucket_push(ws_pre, w@, k);
                        if k == key_of(w@) {
                            assert(es@[last].key@ == k);
                        } else {
                            lemma_has_entry_same_keys(
                                es@.take(last),
                                es_pre,
                                k,
                            );
                            if has_entry(es@, k) {
                                let m = choose|m: int|
                                    0 <= m < es@.len() && es@[m].key@ == k;
                                assert(m < last);
                                assert(es@.take(last)[m].key@ == k);
                            }
                            if has_entry(es@.take(last), k) {
                                let m = choose|m: int|
                                    0 <= m < es@.take(last).len() && es@.take(last)[m].key@
                                        == k;
                                assert(es@[m].key@ == k);
                            }
                            assert(forall|m: int|
                                0 <= m < es_pre.len() ==> es@.take(last)[m] == es_pre[m]);
                        }
                    }
                }
            },
        }
        wi = wi + 1;
    }
    let d = Dictionary { entries: es };
    proof {
        assert(words@.take(n as int) =~= words@);
        assert forall|k: Seq<u8>| #[trigger] d@.contains_key(k) <==> bucket_of(
            word_views(words@),
            k,
        ).len() > 0 by {
            lemma_entries_map_domain(d.entries@, k);
        }
        assert forall|k: Seq<u8>| #[trigger] d@.contains_key(k) implies d@[k] == bucket_of(
            word_views(words@),
            k,
        ) by {
            lemma_entries_map_domain(d.entries@, k);
            let i = choose|i: int| 0 <= i < d.entries@.len() && d.entries@[i].key@ == k;
            lemma_entries_map_index(d.entries@, i);
        }
    }
    d
}

/// A well-formed dictionary's mapping is itself well formed: every word of
/// every bucket encodes to the bucket's key.
pub proof fn lemma_dictionary_wf(d: Dictionary)
    requires
        d.wf(),
    ensures
        dict_wf(d@),
{
    assert forall|k: Seq<u8>, j: int|
        d@.contains_key(k) && 0 <= j < d@[k].len() implies key_of(#[trigger] d@[k][j]) == k by {
        lemma_entries_map_domain(d.entries@, k);
        let i = choose|i: int| 0 <= i < d.entries@.len() && d.entries@[i].key@ == k;
        lemma_entries_map_index(d.entries@, i);
        assert(d@[k] == word_views(d.entries@[i].words@));
        assert(d@[k][j] == d.entries@[i].words@[j]@);
    }
}

impl Dictionary {
    /// Entries carry distinct keys and each is well formed.
    pub open spec fn wf(self) -> bool {
        &&& unique_keys(self.entries@)
        &&& forall|i: int| 0 <= i < self.entries@.len() ==> (#[trigger] self.entries@[i]).wf()
    }

    /// Looks a digit key up: the bucket of words that encode to it, or `None`
    /// where no word does.
    pub fn get<'a>(&'a self, key: &Vec<u8>) -> (r: Option<&'a Vec<String>>)
        requires
            self.wf(),
        ensures
            match r {
                Some(ws) => self@.contains_key(key@) && word_views(ws@) == self@[key@]
                    && ws@.len() > 0,
                None => !self@.contains_key(key@),
            },
    {
        proof {
            lemma_entries_map_domain(self.entries@, key@);
        }
        match find_entry(&self.entries, key) {
            Some(i) => {
                proof {
                    lemma_entries_map_index(self.entries@, i as int);
                }
                Some(&self.entries[i].words)
            },
            None => None,
        }
    }
}

} // verus!
