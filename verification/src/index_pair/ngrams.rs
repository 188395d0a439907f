//! Index pairs for strings: two strings make a pair where they share an
//! n-gram of a given length.

use std::collections::HashMap;
use vstd::prelude::*;
use vstd::string::StrSliceExecFns;

use super::cartesian::{all_pairs, lemma_pairs_after, CartesianIndexPairIterator};
use super::{drain, IndexPair, IndexPairIterator};
use crate::{Index, Size};

verus! {

broadcast use vstd::std_specs::hash::group_hash_axioms;

/// The n-grams of a string: every run of `length` characters that follow
/// each other in it, from the first character on. A string shorter than
/// `length` has none.
pub open spec fn windows(s: Seq<char>, length: nat) -> Seq<Seq<char>> {
    if s.len() < length {
        Seq::empty()
    } else {
        Seq::new((s.len() - length + 1) as nat, |start: int| s.subrange(start, start + length))
    }
}

/// Whether two strings have an n-gram of the given length in common.
pub open spec fn share_window(a: Seq<char>, b: Seq<char>, length: nat) -> bool {
    exists|x: int, y: int|
        0 <= x < windows(a, length).len() && 0 <= y < windows(b, length).len()
            && #[trigger] windows(a, length)[x] == #[trigger] windows(b, length)[y]
}

/// The pairs whose two strings have an n-gram in common.
pub open spec fn sharing(strings: Seq<String>, length: nat) -> spec_fn(IndexPair) -> bool {
    |pair: IndexPair| share_window(strings[pair.0 as int]@, strings[pair.1 as int]@, length)
}

/// The pairs of strings that have an n-gram in common, the lower index
/// first, in the order of all pairs.
pub open spec fn sharing_pairs(strings: Seq<String>, length: nat) -> Seq<IndexPair> {
    all_pairs(strings.len()).filter(sharing(strings, length))
}

/// The character sequences of strings.
pub open spec fn texts(strings: Seq<String>) -> Seq<Seq<char>> {
    strings.map_values(|s: String| s@)
}

/// Divide a string into its (possibly duplicate) n-grams of a given length.
///
/// # Arguments
///
/// * `string` - Reference to string from which to extract n-grams.
/// * `ngram_length` - The number of characters of an n-gram.
///
/// # Return
///
/// A vector of strings containing all n-grams of the given length, in the
/// order in which they start.
pub fn ngrams(string: &String, ngram_length: Size) -> (grams: Vec<String>)
    ensures
        texts(grams@) == windows(string@, ngram_length as nat),
{
    let text = string.as_str();
    let length = text.unicode_len();
    let mut grams: Vec<String> = Vec::new();
    if length < ngram_length {
        assert(texts(grams@) =~= windows(string@, ngram_length as nat));
        return grams;
    }
    let last = length - ngram_length;
    let mut start: usize = 0;
    let ghost all = windows(string@, ngram_length as nat);
    assert(texts(grams@) =~= all.take(0));
    loop
        invariant_except_break
            texts(grams@) == all.take(start as int),
        invariant
            text@ == string@,
            length == string@.len(),
            ngram_length <= length,
            last == length - ngram_length,
            start <= last,
            all == windows(string@, ngram_length as nat),
        ensures
            texts(grams@) == all,
        decreases last - start,
    {
        let ghost before = grams@;
        let gram = text.substring_char(start, start + ngram_length).to_owned();
        grams.push(gram);
        proof {
            assert(all.len() == last + 1);
            assert(texts(before).len() == before.len());
            assert(all.take(start as int).len() == start);
            assert(grams@.len() == start + 1);
            assert(all[start as int] == string@.subrange(start as int, start + ngram_length));
            assert forall|k: int| 0 <= k < start + 1 implies #[trigger] texts(grams@)[k]
                == all[k] by {
                if k < start {
                    assert(grams@[k] == before[k]);
                    assert(texts(before)[k] == all.take(start as int)[k]);
                } else {
                    assert(grams@[k]@ == all[start as int]);
                }
            }
            assert(texts(grams@) =~= all.take(start + 1));
        }
        if start == last {
            assert(all.take(start + 1) =~= all);
            break;
        }
        start = start + 1;
    }
    grams
}

/// Whether two vectors of strings hold a common string.
fn share(a: &Vec<String>, b: &Vec<String>) -> (found: bool)
    ensures
        found <==> exists|x: int, y: int|
            0 <= x < a@.len() && 0 <= y < b@.len() && (#[trigger] a@[x])@ == (#[trigger] b@[y])@,
{
    for x in 0..a.len()
        invariant
            forall|p: int, q: int|
                0 <= p < x && 0 <= q < b@.len() ==> (#[trigger] a@[p])@ != (#[trigger] b@[q])@,
    {
        for y in 0..b.len()
            invariant
                0 <= x < a@.len(),
                forall|p: int, q: int|
                    0 <= p < x && 0 <= q < b@.len() ==> (#[trigger] a@[p])@ != (#[trigger] b@[q])@,
                forall|q: int| 0 <= q < y ==> a@[x as int]@ != (#[trigger] b@[q])@,
        {
            if a[x] == b[y] {
                return true;
            }
        }
    }
    false
}

/// The key of a text after one more character.
spec fn mixed(key: u64, c: char) -> u64 {
    ((key as int * 31 + c as u32 as int) % 0x1_0000_0000_0000_0000) as u64
}

/// The key under which an n-gram is filed: a number made of its characters.
/// Equal n-grams have equal keys; n-grams with equal keys need not be equal.
spec fn key_of(text: Seq<char>) -> u64
    decreases text.len(),
{
    if text.len() == 0 {
        0
    } else {
        mixed(key_of(text.drop_last()), text.last())
    }
}

/// The key of an n-gram.
fn key(gram: &String) -> (key: u64)
    ensures
        key == key_of(gram@),
{
    let text = gram.as_str();
    let length = text.unicode_len();
    let mut key: u64 = 0;
    for i in 0..length
        invariant
            text@ == gram@,
            length == gram@.len(),
            key == key_of(gram@.take(i as int)),
    {
        let c = text.get_char(i);
        proof {
            assert(gram@.take(i + 1).drop_last() =~= gram@.take(i as int));
            assert(gram@.take(i + 1).last() == c);
        }
        let wide: u128 = key as u128 * 31 + (c as u32) as u128;
        key = (wide % 0x1_0000_0000_0000_0000) as u64;
    }
    assert(gram@.take(length as int) =~= gram@);
    key
}

/// The keys of n-grams, in their order.
fn keys(grams: &Vec<String>) -> (keys: Vec<u64>)
    ensures
        keys@.len() == grams@.len(),
        forall|x: int| 0 <= x < grams@.len() ==> #[trigger] keys@[x] == key_of(grams@[x]@),
{
    let mut keys: Vec<u64> = Vec::new();
    for x in 0..grams.len()
        invariant
            keys@.len() == x,
            forall|y: int| 0 <= y < x ==> #[trigger] keys@[y] == key_of(grams@[y]@),
    {
        keys.push(key(&grams[x]));
    }
    keys
}

/// Whether each of the first strings has the keys of its n-grams, in their order.
spec fn keyed(grams: Seq<Vec<String>>, keys: Seq<Vec<u64>>, upto: int) -> bool {
    &&& forall|r: int| 0 <= r < upto ==> (#[trigger] keys[r])@.len() == grams[r]@.len()
    &&& forall|r: int, x: int|
        0 <= r < upto && 0 <= x < keys[r]@.len() ==> #[trigger] keys[r]@[x] == key_of(
            grams[r]@[x]@,
        )
}

/// Whether the files hold, under each key of each string, the string.
spec fn filed(keys: Seq<Vec<u64>>, files: Map<u64, Vec<Index>>, upto: int) -> bool {
    forall|i: int, x: int|
        0 <= i < upto && 0 <= x < keys[i]@.len() ==> files.contains_key(#[trigger] keys[i]@[x])
            && files[keys[i]@[x]]@.contains(i as usize)
}

/// Whether the files hold strings below `size` only.
spec fn files_in_range(files: Map<u64, Vec<Index>>, size: nat) -> bool {
    forall|key: u64, m: int|
        files.contains_key(key) && 0 <= m < files[key]@.len() ==> (#[trigger] files[key]@[m])
            < size
}

/// Files each string under the keys of its n-grams.
fn file(keys: &Vec<Vec<u64>>) -> (files: HashMap<u64, Vec<Index>>)
    ensures
        filed(keys@, files@, keys@.len() as int),
        files_in_range(files@, keys@.len()),
{
    let mut files: HashMap<u64, Vec<Index>> = HashMap::new();
    for i in 0..keys.len()
        invariant
            filed(keys@, files@, i as int),
            files_in_range(files@, keys@.len()),
    {
        let mine = &keys[i];
        for x in 0..mine.len()
            invariant
                0 <= i < keys@.len(),
                mine@ == keys@[i as int]@,
                filed(keys@, files@, i as int),
                files_in_range(files@, keys@.len()),
                forall|y: int|
                    0 <= y < x ==> files@.contains_key(#[trigger] mine@[y]) && files@[mine@[y]]@.contains(
                        i,
                    ),
        {
            let key = mine[x];
            let ghost before = files@;
            let mut file: Vec<Index> = match files.remove(&key) {
                Some(file) => file,
                None => Vec::new(),
            };
            let ghost old_file = file@;
            if file.len() == 0 || file[file.len() - 1] != i {
                file.push(i);
            }
            files.insert(key, file);
            proof {
                assert(files@[key]@ == old_file || files@[key]@ == old_file.push(i));
                assert(files@[key]@[files@[key]@.len() - 1] == i);
                assert(files@[key]@.contains(i));
                assert forall|other: u64| other != key && before.contains_key(other) implies files@.contains_key(
                    other,
                ) && files@[other] == before[other] by {}
                assert forall|member: Index|
                    before.contains_key(key) && before[key]@.contains(member) implies files@[key]@.contains(
                    member,
                ) by {
                    let m = choose|m: int| 0 <= m < old_file.len() && old_file[m] == member;
                    assert(files@[key]@[m] == member);
                }
                assert(filed(keys@, files@, i as int)) by {
                    assert forall|r: int, y: int|
                        0 <= r < i && 0 <= y < keys@[r]@.len() implies files@.contains_key(
                        #[trigger] keys@[r]@[y],
                    ) && files@[keys@[r]@[y]]@.contains(r as usize) by {
                        assert(before.contains_key(keys@[r]@[y]) && before[keys@[r]@[y]]@.contains(
                            r as usize,
                        ));
                    }
                }
                assert(files_in_range(files@, keys@.len())) by {
                    assert forall|other: u64, m: int|
                        files@.contains_key(other) && 0 <= m < files@[other]@.len() implies (
                    #[trigger] files@[other]@[m]) < keys@.len() by {
                        if other == key {
                            if m < old_file.len() {
                                assert(before[key]@[m] < keys@.len());
                            }
                        } else {
                            assert(before[other]@[m] < keys@.len());
                        }
                    }
                }
                assert forall|y: int| 0 <= y < x + 1 implies files@.contains_key(
                    #[trigger] mine@[y],
                ) && files@[mine@[y]]@.contains(i) by {
                    if mine@[y] != key {
                        assert(before.contains_key(mine@[y]) && before[mine@[y]]@.contains(i));
                    }
                }
            }
        }
    }
    files
}

/// Marks the strings that are filed under one of the keys.
fn mark(mine: &Vec<u64>, files: &HashMap<u64, Vec<Index>>, marks: &mut Vec<usize>, sign: usize)
    requires
        files_in_range(files@, old(marks)@.len()),
    ensures
        final(marks)@.len() == old(marks)@.len(),
        forall|x: int, m: int|
            0 <= x < mine@.len() && files@.contains_key(mine@[x]) && 0 <= m
                < files@[mine@[x]]@.len() ==> final(marks)@[(#[trigger] files@[mine@[x]]@[m]) as int]
                == sign,
{
    for x in 0..mine.len()
        invariant
            marks@.len() == old(marks)@.len(),
            files_in_range(files@, marks@.len()),
            forall|y: int, m: int|
                0 <= y < x && files@.contains_key(mine@[y]) && 0 <= m < files@[mine@[y]]@.len()
                    ==> marks@[(#[trigger] files@[mine@[y]]@[m]) as int] == sign,
    {
        match files.get(&mine[x]) {
            Some(file) => {
                for m in 0..file.len()
                    invariant
                        0 <= x < mine@.len(),
                        files@.contains_key(mine@[x as int]),
                        file@ == files@[mine@[x as int]]@,
                        marks@.len() == old(marks)@.len(),
                        files_in_range(files@, marks@.len()),
                        forall|y: int, l: int|
                            0 <= y < x && files@.contains_key(mine@[y]) && 0 <= l
                                < files@[mine@[y]]@.len() ==> marks@[(
                            #[trigger] files@[mine@[y]]@[l]) as int] == sign,
                        forall|l: int| 0 <= l < m ==> marks@[(#[trigger] file@[l]) as int] == sign,
                {
                    assert(files@[mine@[x as int]]@[m as int] < marks@.len());
                    marks.set(file[m], sign);
                }
            },
            None => {},
        }
    }
}

/// The pairs of strings that share an n-gram.
#[derive(Debug)]
pub struct NGramPairs {
    /// The collected index pairs.
    pairs: Vec<IndexPair>,
    /// The current iteration index.
    current_index: Index,
}

impl NGramPairs {
    /// The iteration is within the pairs or at their end.
    #[verifier::type_invariant]
    pub closed spec fn in_range(self) -> bool {
        self.current_index <= self.pairs@.len()
    }

    /// Create a new `NGramPairs` instance
    ///
    /// # Arguments
    ///
    /// * `strings` - Reference to a vector of strings.
    /// * `ngram_length` - The length of n-grams to build in ascertaining commonality.
    ///
    /// # Return
    ///
    /// * A new `NGramPairs` instance, in which every pair of strings that
    ///   share an n-gram is pending, once, and no other pair.
    pub fn new(strings: &Vec<String>, ngram_length: Size) -> (pairs: NGramPairs)
        requires
            ngram_length > 0,
        ensures
            pairs.pending() == sharing_pairs(strings@, ngram_length as nat),
    {
        let size = strings.len();
        let ghost length = ngram_length as nat;
        let ghost pred = sharing(strings@, length);
        let mut grams: Vec<Vec<String>> = Vec::new();
        let mut all_keys: Vec<Vec<u64>> = Vec::new();
        let mut marks: Vec<usize> = Vec::new();
        for i in 0..size
            invariant
                size == strings@.len(),
                grams@.len() == i,
                all_keys@.len() == i,
                marks@.len() == i,
                forall|r: int|
                    0 <= r < i ==> texts((#[trigger] grams@[r])@) == windows(
                        strings@[r]@,
                        ngram_length as nat,
                    ),
                keyed(grams@, all_keys@, i as int),
        {
            let mine = ngrams(&strings[i], ngram_length);
            let ghost grams_before = grams@;
            let ghost keys_before = all_keys@;
            all_keys.push(keys(&mine));
            grams.push(mine);
            marks.push(0);
            proof {
                assert forall|r: int| 0 <= r < i + 1 implies (#[trigger] all_keys@[r])@.len()
                    == grams@[r]@.len() by {
                    if r < i {
                        assert(all_keys@[r] == keys_before[r]);
                        assert(grams@[r] == grams_before[r]);
                    }
                }
                assert forall|r: int, x: int|
                    0 <= r < i + 1 && 0 <= x < all_keys@[r]@.len() implies #[trigger] all_keys@[r]@[x]
                    == key_of(grams@[r]@[x]@) by {
                    if r < i {
                        assert(all_keys@[r] == keys_before[r]);
                        assert(grams@[r] == grams_before[r]);
                        assert(keys_before[r]@[x] == key_of(grams_before[r]@[x]@));
                    }
                }
            }
        }
        let files = file(&all_keys);
        let mut marked: Index = size;
        let mut pairs: Vec<IndexPair> = Vec::new();
        if size > 0 {
            let mut all = CartesianIndexPairIterator::new(size);
            let ghost mut seen: Seq<IndexPair> = Seq::empty();
            proof {
                lemma_pairs_after(size as nat, 0, 0);
                assert(seen.filter(pred) =~= Seq::<IndexPair>::empty()) by {
                    reveal(Seq::filter);
                }
            }
            loop
                invariant
                    size == strings@.len(),
                    grams@.len() == size,
                    all_keys@.len() == size,
                    marks@.len() == size,
                    marked <= size,
                    length == ngram_length as nat,
                    pred == sharing(strings@, length),
                    forall|r: int|
                        0 <= r < size ==> texts((#[trigger] grams@[r])@) == windows(
                            strings@[r]@,
                            length,
                        ),
                    keyed(grams@, all_keys@, size as int),
                    filed(all_keys@, files@, size as int),
                    files_in_range(files@, size as nat),
                    marked < size ==> forall|m: Index|
                        m < size && #[trigger] pred((marked, m)) ==> marks@[m as int] == marked + 1,
                    forall|r: Index, c: Index| #[trigger]
                        all_pairs(size as nat).contains((r, c)) ==> r < c < size,
                    seen + all.pending() == all_pairs(size as nat),
                    pairs@ == seen.filter(pred),
                ensures
                    pairs@ == all_pairs(size as nat).filter(pred),
                decreases all.pending().len(),
            {
                let ghost before = all.pending();
                match all.next() {
                    Some(pair) => {
                        proof {
                            assert(before =~= seq![pair] + before.drop_first());
                            assert(all_pairs(size as nat)[seen.len() as int] == pair);
                            assert(all_pairs(size as nat).contains((pair.0, pair.1)));
                            seen.lemma_filter_push(pair, pred);
                        }
                        if marked != pair.0 {
                            mark(&all_keys[pair.0], &files, &mut marks, pair.0 + 1);
                            marked = pair.0;
                            proof {
                                assert forall|m: Index|
                                    m < size && #[trigger] pred((marked, m)) implies marks@[m as int]
                                    == marked + 1 by {
                                    lemma_share(grams@[marked as int]@, grams@[m as int]@);
                                    let (x, y) = choose|x: int, y: int|
                                        0 <= x < grams@[marked as int]@.len() && 0 <= y
                                            < grams@[m as int]@.len() && (
                                        #[trigger] grams@[marked as int]@[x])@ == (
                                        #[trigger] grams@[m as int]@[y])@;
                                    assert(all_keys@[m as int]@.len() == grams@[m as int]@.len());
                                    assert(all_keys@[marked as int]@.len()
                                        == grams@[marked as int]@.len());
                                    let key = all_keys@[m as int]@[y];
                                    assert(key == all_keys@[marked as int]@[x]);
                                    assert(files@.contains_key(key) && files@[key]@.contains(m));
                                    let p = choose|p: int|
                                        0 <= p < files@[key]@.len() && files@[key]@[p] == m;
                                    assert(marks@[files@[all_keys@[marked as int]@[x]]@[p] as int]
                                        == marked + 1);
                                }
                            }
                        }
                        let found = marks[pair.1] == pair.0 + 1 && share(
                            &grams[pair.0],
                            &grams[pair.1],
                        );
                        proof {
                            lemma_share(grams@[pair.0 as int]@, grams@[pair.1 as int]@);
                            assert(found == pred(pair));
                        }
                        if found {
                            pairs.push(pair);
                        }
                        proof {
                            seen = seen.push(pair);
                            assert(seen + all.pending() =~= all_pairs(size as nat));
                        }
                    },
                    None => {
                        assert(seen + all.pending() =~= seen);
                        break;
                    },
                }
            }
        } else {
            assert(all_pairs(0).filter(pred) =~= Seq::<IndexPair>::empty()) by {
                reveal(Seq::filter);
            }
        }
        assert(pairs@.skip(0) =~= pairs@);
        NGramPairs { pairs, current_index: 0 }
    }

    /// All the pairs that are still to come, in their order.
    pub fn collect(self) -> (pairs: Vec<IndexPair>)
        ensures
            pairs@ == self.pending(),
    {
        let mut rest = self;
        drain(&mut rest)
    }
}

impl IndexPairIterator for NGramPairs {
    /// The collected pairs from the current one on.
    closed spec fn pending(&self) -> Seq<IndexPair> {
        self.pairs@.skip(self.current_index as int)
    }

    /// Return the next index pair.
    fn next(&mut self) -> (pair: Option<IndexPair>)
        ensures
            pair is None ==> *final(self) == *old(self),
    {
        proof {
            use_type_invariant(&*self);
        }
        if self.current_index == self.pairs.len() {
            None
        } else {
            let pair = self.pairs[self.current_index];
            self.current_index = self.current_index + 1;
            assert(self.pending() =~= old(self).pending().drop_first());
            Some(pair)
        }
    }
}

/// Two vectors of n-grams hold a common string exactly where the texts share
/// an n-gram.
proof fn lemma_share(a: Seq<String>, b: Seq<String>)
    ensures
        (exists|x: int, y: int|
            0 <= x < a.len() && 0 <= y < b.len() && (#[trigger] a[x])@ == (#[trigger] b[y])@)
            <==> (exists|x: int, y: int|
            0 <= x < texts(a).len() && 0 <= y < texts(b).len() && #[trigger] texts(a)[x]
                == #[trigger] texts(b)[y]),
{
    if exists|x: int, y: int|
        0 <= x < a.len() && 0 <= y < b.len() && (#[trigger] a[x])@ == (#[trigger] b[y])@ {
        let (x, y) = choose|x: int, y: int|
            0 <= x < a.len() && 0 <= y < b.len() && (#[trigger] a[x])@ == (#[trigger] b[y])@;
        assert(texts(a)[x] == texts(b)[y]);
    }
    if exists|x: int, y: int|
        0 <= x < texts(a).len() && 0 <= y < texts(b).len() && #[trigger] texts(a)[x]
            == #[trigger] texts(b)[y] {
        let (x, y) = choose|x: int, y: int|
            0 <= x < texts(a).len() && 0 <= y < texts(b).len() && #[trigger] texts(a)[x]
                == #[trigger] texts(b)[y];
        assert(a[x]@ == b[y]@);
    }
}

} // verus!
