use crate::text::chars_of;
use ahash::AHashMap;
use vstd::prelude::*;

verus! {

/// `ahash::AHashMap`, opaque here: what it holds is read through
/// `len_entries` and `char_entries`.
#[verifier::external_type_specification]
#[verifier::external_body]
#[verifier::reject_recursive_types(K)]
#[verifier::reject_recursive_types(V)]
#[verifier::reject_recursive_types(S)]
pub struct ExAHashMap<K, V, S>(AHashMap<K, V, S>);

/// `ahash::RandomState`, the map's default hasher, carried through opaque.
#[verifier::external_type_specification]
#[verifier::external_body]
pub struct ExRandomState(ahash::RandomState);

/// The views of a sequence of strings.
pub open spec fn views(v: Seq<String>) -> Seq<Seq<char>> {
    v.map_values(|s: String| s@)
}

/// What a length-keyed map holds: each key with the views of its words.
pub uninterp spec fn len_entries(m: AHashMap<usize, Vec<String>>) -> Map<usize, Seq<Seq<char>>>;

/// What a character-keyed map holds: each key with the views of its words.
pub uninterp spec fn char_entries(m: AHashMap<char, Vec<String>>) -> Map<char, Seq<Seq<char>>>;

/// Relies on `AHashMap::new`: the new map is empty.
#[verifier::external_body]
fn len_map_new() -> (r: AHashMap<usize, Vec<String>>)
    ensures
        len_entries(r).dom() == Set::<usize>::empty(),
{
    AHashMap::new()
}

/// Relies on `AHashMap::new`: the new map is empty.
#[verifier::external_body]
fn char_map_new() -> (r: AHashMap<char, Vec<String>>)
    ensures
        char_entries(r).dom() == Set::<char>::empty(),
{
    AHashMap::new()
}

/// Relies on `AHashMap::get`: the value stored under `k`, if any.
#[verifier::external_body]
pub(crate) fn len_map_get(m: &AHashMap<usize, Vec<String>>, k: usize) -> (r: Option<&Vec<String>>)
    ensures
        r is Some <==> len_entries(*m).contains_key(k),
        r matches Some(v) ==> views(v@) == len_entries(*m)[k],
{
    m.get(&k)
}

/// Relies on `AHashMap::get`: the value stored under `k`, if any.
#[verifier::external_body]
pub(crate) fn char_map_get(m: &AHashMap<char, Vec<String>>, k: char) -> (r: Option<&Vec<String>>)
    ensures
        r is Some <==> char_entries(*m).contains_key(k),
        r matches Some(v) ==> views(v@) == char_entries(*m)[k],
{
    m.get(&k)
}

/// Relies on `AHashMap::insert`: `k` now maps to `v`, other keys are kept.
#[verifier::external_body]
fn len_map_insert(m: &mut AHashMap<usize, Vec<String>>, k: usize, v: Vec<String>)
    ensures
        len_entries(*final(m)) == len_entries(*old(m)).insert(k, views(v@)),
{
    m.insert(k, v);
}

/// Relies on `AHashMap::insert`: `k` now maps to `v`, other keys are kept.
#[verifier::external_body]
fn char_map_insert(m: &mut AHashMap<char, Vec<String>>, k: char, v: Vec<String>)
    ensures
        char_entries(*final(m)) == char_entries(*old(m)).insert(k, views(v@)),
{
    m.insert(k, v);
}

/// Relies on `AHashMap::remove`: takes out the value stored under `k`, if any.
#[verifier::external_body]
fn len_map_remove(m: &mut AHashMap<usize, Vec<String>>, k: usize) -> (r: Option<Vec<String>>)
    ensures
        r is Some <==> len_entries(*old(m)).contains_key(k),
        r matches Some(v) ==> views(v@) == len_entries(*old(m))[k],
        len_entries(*final(m)) == len_entries(*old(m)).remove(k),
{
    m.remove(&k)
}

/// Relies on `AHashMap::remove`: takes out the value stored under `k`, if any.
#[verifier::external_body]
fn char_map_remove(m: &mut AHashMap<char, Vec<String>>, k: char) -> (r: Option<Vec<String>>)
    ensures
        r is Some <==> char_entries(*old(m)).contains_key(k),
        r matches Some(v) ==> views(v@) == char_entries(*old(m))[k],
        char_entries(*final(m)) == char_entries(*old(m)).remove(k),
{
    m.remove(&k)
}

/// The words of `ws` that have exactly `n` characters, in their order.
pub open spec fn of_len(ws: Seq<Seq<char>>, n: nat) -> Seq<Seq<char>> {
    ws.filter(|w: Seq<char>| w.len() == n)
}

/// Whether `w` is non-empty and its first character is `c`.
pub open spec fn leads_with(w: Seq<char>, c: char) -> bool {
    w.len() > 0 && w[0] == c
}

/// The words of `ws` whose first character is `c`, in their order.
pub open spec fn starting_with(ws: Seq<Seq<char>>, c: char) -> Seq<Seq<char>> {
    ws.filter(|w: Seq<char>| leads_with(w, c))
}

/// Each word of a length bucket has that length and is a word of `ws`.
pub proof fn lemma_of_len_member(ws: Seq<Seq<char>>, n: nat, i: int)
    requires
        0 <= i < of_len(ws, n).len(),
    ensures
        of_len(ws, n)[i].len() == n,
        ws.contains(of_len(ws, n)[i]),
{
    let p = |w: Seq<char>| w.len() == n;
    assert(of_len(ws, n) == ws.filter(p));
    ws.lemma_filter_pred(p, i);
    assert(ws.filter(p).contains(ws.filter(p)[i]));
    ws.lemma_filter_contains_rev(p, ws.filter(p)[i]);
}

/// Each word of a first-character bucket starts with that character and is
/// a word of `ws`.
pub proof fn lemma_starting_with_member(ws: Seq<Seq<char>>, c: char, i: int)
    requires
        0 <= i < starting_with(ws, c).len(),
    ensures
        starting_with(ws, c)[i].len() > 0,
        starting_with(ws, c)[i][0] == c,
        ws.contains(starting_with(ws, c)[i]),
{
    let p = |w: Seq<char>| leads_with(w, c);
    assert(starting_with(ws, c) == ws.filter(p));
    ws.lemma_filter_pred(p, i);
    assert(ws.filter(p).contains(ws.filter(p)[i]));
    ws.lemma_filter_contains_rev(p, ws.filter(p)[i]);
}

/// A length index of `ws`: a key for each length that occurs, holding the
/// words of that length in order.
pub open spec fn is_len_index(m: Map<usize, Seq<Seq<char>>>, ws: Seq<Seq<char>>) -> bool {
    forall|k: usize|
        (#[trigger] m.contains_key(k) <==> of_len(ws, k as nat).len() > 0) && (m.contains_key(k)
            ==> m[k] == of_len(ws, k as nat))
}

/// A first-character index of `ws`: a key for each first character that
/// occurs, holding the words that start with it in order.
pub open spec fn is_start_index(m: Map<char, Seq<Seq<char>>>, ws: Seq<Seq<char>>) -> bool {
    forall|c: char|
        (#[trigger] m.contains_key(c) <==> starting_with(ws, c).len() > 0) && (m.contains_key(c)
            ==> m[c] == starting_with(ws, c))
}

/// Builds the length index of `words` in one pass, keeping each bucket in
/// the order of the word table.
pub(crate) fn build_len_index(words: &Vec<String>) -> (r: AHashMap<usize, Vec<String>>)
    ensures
        is_len_index(len_entries(r), views(words@)),
{
    let mut m = len_map_new();
    let mut i: usize = 0;
    while i < words.len()
        invariant
            i <= words.len(),
            is_len_index(len_entries(m), views(words@).take(i as int)),
        decreases words.len() - i,
    {
        let ghost ws = views(words@);
        let ghost prev = ws.take(i as int);
        let ghost old_m = len_entries(m);
        let n = chars_of(words[i].as_str()).len();
        let mut bucket = match len_map_remove(&mut m, n) {
            Some(b) => b,
            None => Vec::new(),
        };
        proof {
            assert(ws.take(i + 1) =~= prev.push(ws[i as int]));
            if !old_m.contains_key(n) {
                assert(views(bucket@) =~= of_len(prev, n as nat));
            }
        }
        bucket.push(words[i].clone());
        len_map_insert(&mut m, n, bucket);
        i = i + 1;
        proof {
            let cur = ws.take(i as int);
            let w = ws[i - 1];
            assert forall|k: usize|
                (#[trigger] len_entries(m).contains_key(k) <==> of_len(cur, k as nat).len() > 0)
                    && (len_entries(m).contains_key(k) ==> len_entries(m)[k] == of_len(
                    cur,
                    k as nat,
                )) by {
                prev.lemma_filter_push(w, |x: Seq<char>| x.len() == k as nat);
                if k == n {
                    assert(views(bucket@) =~= of_len(prev, n as nat).push(w));
                }
            }
        }
    }
    proof {
        assert(views(words@).take(i as int) =~= views(words@));
    }
    m
}

/// Builds the first-character index of `words` in one pass, keeping each
/// bucket in the order of the word table. Every word must be non-empty.
pub(crate) fn build_start_index(words: &Vec<String>) -> (r: AHashMap<char, Vec<String>>)
    requires
        forall|j: int| 0 <= j < words@.len() ==> #[trigger] words@[j]@.len() > 0,
    ensures
        is_start_index(char_entries(r), views(words@)),
{
    let mut m = char_map_new();
    let mut i: usize = 0;
    while i < words.len()
        invariant
            i <= words.len(),
            forall|j: int| 0 <= j < words@.len() ==> #[trigger] words@[j]@.len() > 0,
            is_start_index(char_entries(m), views(words@).take(i as int)),
        decreases words.len() - i,
    {
        let ghost ws = views(words@);
        let ghost prev = ws.take(i as int);
        let ghost old_m = char_entries(m);
        let chars = chars_of(words[i].as_str());
        proof {
            assert(words@[i as int]@.len() > 0);
        }
        let c = chars[0];
        let mut bucket = match char_map_remove(&mut m, c) {
            Some(b) => b,
            None => Vec::new(),
        };
        proof {
            assert(ws.take(i + 1) =~= prev.push(ws[i as int]));
            if !old_m.contains_key(c) {
                assert(views(bucket@) =~= starting_with(prev, c));
            }
        }
        bucket.push(words[i].clone());
        char_map_insert(&mut m, c, bucket);
        i = i + 1;
        proof {
            let cur = ws.take(i as int);
            let w = ws[i - 1];
            assert forall|k: char|
                (#[trigger] char_entries(m).contains_key(k) <==> starting_with(cur, k).len() > 0)
                    && (char_entries(m).contains_key(k) ==> char_entries(m)[k] == starting_with(
                    cur,
                    k,
                )) by {
                prev.lemma_filter_push(w, |x: Seq<char>| leads_with(x, k));
                if k == c {
                    assert(views(bucket@) =~= starting_with(prev, c).push(w));
                }
            }
        }
    }
    proof {
        assert(views(words@).take(i as int) =~= views(words@));
    }
    m
}

} // verus!

verus! {

/// A filter keeps each occurrence of a kept value and drops every other
/// value: in the filtered sequence, `w` occurs as often as in `ws` if `p`
/// keeps it, and not at all otherwise.
proof fn lemma_filter_count(ws: Seq<Seq<char>>, p: spec_fn(Seq<char>) -> bool, w: Seq<char>)
    ensures
        ws.filter(p).to_multiset().count(w) == if p(w) {
            ws.to_multiset().count(w)
        } else {
            0
        },
    decreases ws.len(),
{
    broadcast use vstd::multiset::group_multiset_axioms;

    if ws.len() == 0 {
        ws.lemma_filter_len(p);
        ws.to_multiset_ensures();
        ws.filter(p).to_multiset_ensures();
        assert(!ws.contains(w));
        assert(!ws.filter(p).contains(w));
    } else {
        let s = ws.drop_last();
        let x = ws.last();
        assert(ws =~= s.push(x));
        s.lemma_filter_push(x, p);
        lemma_filter_count(s, p, w);
        vstd::seq_lib::to_multiset_build(s, x);
        vstd::seq_lib::to_multiset_build(s.filter(p), x);
    }
}

/// Every word of a table lies in exactly one length bucket: the one keyed by
/// its number of characters.
pub proof fn lemma_one_len_bucket(ws: Seq<Seq<char>>, i: int, n: nat)
    requires
        0 <= i < ws.len(),
    ensures
        of_len(ws, n).contains(ws[i]) <==> n == ws[i].len(),
{
    let p = |w: Seq<char>| w.len() == n;
    assert(of_len(ws, n) == ws.filter(p));
    if n == ws[i].len() {
        ws.lemma_filter_contains(p, i);
    } else if ws.filter(p).contains(ws[i]) {
        let k = choose|k: int| 0 <= k < ws.filter(p).len() && ws.filter(p)[k] == ws[i];
        ws.lemma_filter_pred(p, k);
    }
}

/// Every non-empty word of a table lies in exactly one first-character
/// bucket: the one keyed by its first character.
pub proof fn lemma_one_start_bucket(ws: Seq<Seq<char>>, i: int, c: char)
    requires
        0 <= i < ws.len(),
        ws[i].len() > 0,
    ensures
        starting_with(ws, c).contains(ws[i]) <==> c == ws[i][0],
{
    let p = |w: Seq<char>| leads_with(w, c);
    assert(starting_with(ws, c) == ws.filter(p));
    if c == ws[i][0] {
        ws.lemma_filter_contains(p, i);
    } else if ws.filter(p).contains(ws[i]) {
        let k = choose|k: int| 0 <= k < ws.filter(p).len() && ws.filter(p)[k] == ws[i];
        ws.lemma_filter_pred(p, k);
    }
}

/// The length buckets, put together, give back the word table as a
/// multiset: each word occurs in the bucket of its length as often as in the
/// table, and in no other bucket.
pub proof fn lemma_len_buckets_multiset(ws: Seq<Seq<char>>, n: nat, w: Seq<char>)
    ensures
        of_len(ws, n).to_multiset().count(w) == if w.len() == n {
            ws.to_multiset().count(w)
        } else {
            0
        },
{
    lemma_filter_count(ws, |x: Seq<char>| x.len() == n, w);
}

/// The first-character buckets, put together, give back a table of
/// non-empty words as a multiset: each word occurs in the bucket of its
/// first character as often as in the table, and in no other bucket.
pub proof fn lemma_start_buckets_multiset(ws: Seq<Seq<char>>, c: char, w: Seq<char>)
    requires
        w.len() > 0,
    ensures
        starting_with(ws, c).to_multiset().count(w) == if w[0] == c {
            ws.to_multiset().count(w)
        } else {
            0
        },
{
    lemma_filter_count(ws, |x: Seq<char>| leads_with(x, c), w);
}

} // verus!
