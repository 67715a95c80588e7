//! Small helpers: word counts of a text, left-to-right sums, a memoising
//! cache, and the longer of two strings.
use crate::mpc_shamir::party::label_map;
use crate::school::{lemma_label_map_update, unique_keys};
use std::collections::HashMap;
use std::hash::Hash;
use vstd::prelude::*;
use vstd::std_specs::hash::obeys_key_model;
use vstd::std_specs::ops::AddSpec;
use vstd::string::StrSliceExecFns;

verus! {

// ── Word counts ───────────────────────────────────────────────────────────────
/// The Unicode White_Space characters, those `char::is_whitespace` accepts.
pub open spec fn white_space(c: char) -> bool {
    let u = c as int;
    ||| 0x09 <= u <= 0x0d
    ||| u == 0x20
    ||| u == 0x85
    ||| u == 0xa0
    ||| u == 0x1680
    ||| 0x2000 <= u <= 0x200a
    ||| u == 0x2028
    ||| u == 0x2029
    ||| u == 0x202f
    ||| u == 0x205f
    ||| u == 0x3000
}

/// Whether `c` is white space.
fn is_white_space(c: char) -> (r: bool)
    ensures
        r == white_space(c),
{
    let u = c as u32;
    (0x09 <= u && u <= 0x0d) || u == 0x20 || u == 0x85 || u == 0xa0 || u == 0x1680 || (0x2000 <= u
        && u <= 0x200a) || u == 0x2028 || u == 0x2029 || u == 0x202f || u == 0x205f || u == 0x3000
}

/// Scanning `s` from the left: the words completed so far and the run of
/// non-white-space characters still open at the end.
pub open spec fn scan_words(s: Seq<char>) -> (Seq<Seq<char>>, Seq<char>)
    decreases s.len(),
{
    if s.len() == 0 {
        (Seq::empty(), Seq::empty())
    } else {
        let (done, open) = scan_words(s.drop_last());
        let c = s.last();
        if !white_space(c) {
            (done, open.push(c))
        } else if open.len() > 0 {
            (done.push(open), Seq::empty())
        } else {
            (done, open)
        }
    }
}

/// The words of `s`: its maximal runs of non-white-space characters, in order.
pub open spec fn words(s: Seq<char>) -> Seq<Seq<char>> {
    let (done, open) = scan_words(s);
    if open.len() > 0 {
        done.push(open)
    } else {
        done
    }
}

/// The number of times `w` occurs in `ws`.
pub open spec fn occurrences(ws: Seq<Seq<char>>, w: Seq<char>) -> nat
    decreases ws.len(),
{
    if ws.len() == 0 {
        0
    } else {
        occurrences(ws.drop_last(), w) + if ws.last() == w {
            1nat
        } else {
            0nat
        }
    }
}

proof fn lemma_occurrences_push(ws: Seq<Seq<char>>, v: Seq<char>, w: Seq<char>)
    ensures
        occurrences(ws.push(v), w) == occurrences(ws, w) + if v == w {
            1nat
        } else {
            0nat
        },
        ws.push(v).contains(w) <==> ws.contains(w) || v == w,
{
    assert(ws.push(v).drop_last() =~= ws);
    if ws.push(v).contains(w) && v != w {
        let k = choose|k: int| 0 <= k < ws.push(v).len() && ws.push(v)[k] == w;
        assert(ws[k] == w);
    }
    if ws.contains(w) {
        let k = choose|k: int| 0 <= k < ws.len() && ws[k] == w;
        assert(ws.push(v)[k] == w);
    }
    if v == w {
        assert(ws.push(v)[ws.len() as int] == w);
    }
}

proof fn lemma_occurrences_bound(ws: Seq<Seq<char>>, w: Seq<char>)
    ensures
        occurrences(ws, w) <= ws.len(),
    decreases ws.len(),
{
    if ws.len() > 0 {
        lemma_occurrences_bound(ws.drop_last(), w);
    }
}

proof fn lemma_occurrences_absent(ws: Seq<Seq<char>>, w: Seq<char>)
    requires
        !ws.contains(w),
    ensures
        occurrences(ws, w) == 0,
    decreases ws.len(),
{
    if ws.len() > 0 {
        let d = ws.drop_last();
        assert(!d.contains(w)) by {
            if d.contains(w) {
                let k = choose|k: int| 0 <= k < d.len() && d[k] == w;
                assert(ws[k] == w);
            }
        }
        assert(ws[ws.len() - 1] != w);
        lemma_occurrences_absent(d, w);
    }
}

/// Every completed word has at least one character.
proof fn lemma_scan_len(s: Seq<char>)
    ensures
        scan_words(s).0.len() + scan_words(s).1.len() <= s.len(),
    decreases s.len(),
{
    if s.len() > 0 {
        lemma_scan_len(s.drop_last());
    }
}

/// The value stored under the key of entry `idx` of a key-unique list.
proof fn lemma_label_map_lookup<V>(s: Seq<(String, V)>, idx: int)
    requires
        unique_keys(s),
        0 <= idx < s.len(),
    ensures
        label_map(s).contains_key(s[idx].0@),
        label_map(s)[s[idx].0@] == s[idx].1,
    decreases s.len(),
{
    if idx < s.len() - 1 {
        let d = s.drop_last();
        assert(unique_keys(d));
        assert(d[idx] == s[idx]);
        lemma_label_map_lookup(d, idx);
        assert(s.last().0@ != s[idx].0@);
    }
}

/// A key that no entry carries is not in the map.
proof fn lemma_label_map_absent<V>(s: Seq<(String, V)>, key: Seq<char>)
    requires
        forall|k: int| 0 <= k < s.len() ==> (#[trigger] s[k]).0@ != key,
    ensures
        !label_map(s).contains_key(key),
    decreases s.len(),
{
    if s.len() > 0 {
        let d = s.drop_last();
        assert forall|k: int| 0 <= k < d.len() implies (#[trigger] d[k]).0@ != key by {
            assert(d[k] == s[k]);
        }
        lemma_label_map_absent(d, key);
    }
}

/// Count one more occurrence of `w`.
fn bump_count(r: &mut Vec<(String, usize)>, w: String)
    requires
        unique_keys(old(r)@),
        label_map(old(r)@).contains_key(w@) ==> label_map(old(r)@)[w@] < usize::MAX,
    ensures
        unique_keys(final(r)@),
        label_map(final(r)@) == label_map(old(r)@).insert(
            w@,
            if label_map(old(r)@).contains_key(w@) {
                (label_map(old(r)@)[w@] + 1) as usize
            } else {
                1usize
            },
        ),
{
    let ghost before = r@;
    let mut j: usize = 0;
    let mut found = false;
    while j < r.len() && !found
        invariant
            r@ == before,
            j <= r@.len(),
            found ==> j < r@.len() && r@[j as int].0@ == w@,
            forall|k: int| 0 <= k < j ==> (#[trigger] r@[k]).0@ != w@,
        decreases r@.len() - j + (if found {
            0int
        } else {
            1int
        }),
    {
        if r[j].0 == w {
            found = true;
        } else {
            j = j + 1;
        }
    }
    if found {
        proof {
            lemma_label_map_lookup(before, j as int);
        }
        let c = r[j].1;
        r.set(j, (w, c + 1));
        proof {
            lemma_label_map_update(before, j as int, r@[j as int]);
        }
    } else {
        proof {
            lemma_label_map_absent(before, w@);
        }
        r.push((w, 1));
        proof {
            assert(r@.drop_last() =~= before);
        }
    }
}

/// Counting one more occurrence of the word `open` keeps the counts equal to
/// the occurrences among the completed words.
proof fn lemma_count_step(
    before: Seq<(String, usize)>,
    after: Seq<(String, usize)>,
    done: Seq<Seq<char>>,
    open: Seq<char>,
)
    requires
        forall|w: Seq<char>| #[trigger] label_map(before).contains_key(w) == done.contains(w),
        forall|w: Seq<char>|
            label_map(before).contains_key(w) ==> #[trigger] label_map(before)[w] == occurrences(
                done,
                w,
            ),
        label_map(before).contains_key(open) ==> label_map(before)[open] < usize::MAX,
        label_map(after) == label_map(before).insert(
            open,
            if label_map(before).contains_key(open) {
                (label_map(before)[open] + 1) as usize
            } else {
                1usize
            },
        ),
    ensures
        forall|w: Seq<char>| #[trigger] label_map(after).contains_key(w) == done.push(open).contains(w),
        forall|w: Seq<char>|
            label_map(after).contains_key(w) ==> #[trigger] label_map(after)[w] == occurrences(
                done.push(open),
                w,
            ),
{
    assert forall|w: Seq<char>| #[trigger]
        label_map(after).contains_key(w) == done.push(open).contains(w) by {
        lemma_occurrences_push(done, open, w);
    }
    assert forall|w: Seq<char>| label_map(after).contains_key(w) implies #[trigger] label_map(
        after,
    )[w] == occurrences(done.push(open), w) by {
        lemma_occurrences_push(done, open, w);
        if label_map(before).contains_key(w) {
            assert(label_map(before)[w] == occurrences(done, w));
        } else {
            lemma_occurrences_absent(done, w);
        }
    }
}

/// **The separators are the Unicode White_Space characters**: tab, line
/// feed, vertical tab, form feed, carriage return, space, next line, no-break
/// space, ogham space mark, the spaces U+2000–U+200A, line and paragraph
/// separators, narrow no-break space, medium mathematical space and
/// ideographic space; no letter or digit is one.
pub proof fn lemma_white_space_characters(c: char)
    ensures
        white_space(c) <==> set![
            9int, 10, 11, 12, 13, 32, 133, 160, 5760, 8192, 8193, 8194, 8195, 8196, 8197, 8198, 8199,
            8200, 8201, 8202, 8232, 8233, 8239, 8287, 12288
        ].contains(c as int),
        ('A' <= c <= 'Z' || 'a' <= c <= 'z' || '0' <= c <= '9') ==> !white_space(c),
{
}

/// The open run of a scan is the trailing run of non-white-space characters,
/// and every completed word is non-empty and free of white space.
proof fn lemma_scan_words_shape(s: Seq<char>)
    ensures
        forall|i: int| 0 <= i < scan_words(s).1.len() ==> !white_space(#[trigger] scan_words(s).1[i]),
        forall|k: int|
            0 <= k < scan_words(s).0.len() ==> (#[trigger] scan_words(s).0[k]).len() > 0 && forall|
                i: int,
            |
                0 <= i < scan_words(s).0[k].len() ==> !white_space(#[trigger] scan_words(s).0[k][i]),
    decreases s.len(),
{
    if s.len() > 0 {
        lemma_scan_words_shape(s.drop_last());
        let d = scan_words(s.drop_last()).0;
        let o = scan_words(s.drop_last()).1;
        let c = s.last();
        let (d2, o2) = scan_words(s);
        if !white_space(c) {
            assert(d2 == d && o2 == o.push(c));
            assert forall|i: int| 0 <= i < o2.len() implies !white_space(#[trigger] o2[i]) by {
                if i < o.len() {
                    assert(o2[i] == o[i]);
                }
            }
        } else if o.len() > 0 {
            assert(d2 == d.push(o) && o2.len() == 0);
            assert forall|k: int| 0 <= k < d2.len() implies (#[trigger] d2[k]).len() > 0 && forall|
                i: int,
            |
                0 <= i < d2[k].len() ==> !white_space(#[trigger] d2[k][i]) by {
                if k < d.len() {
                    assert(d2[k] == d[k]);
                } else {
                    assert(d2[k] == o);
                }
            }
        } else {
            assert(d2 == d && o2 == o);
        }
    }
}

/// **Words are non-empty and hold no white space.**
pub proof fn lemma_words_shape(s: Seq<char>)
    ensures
        forall|k: int| 0 <= k < words(s).len() ==> (#[trigger] words(s)[k]).len() > 0,
        forall|k: int, i: int|
            0 <= k < words(s).len() && 0 <= i < words(s)[k].len() ==> !white_space(
                #[trigger] words(s)[k][i],
            ),
{
    lemma_scan_words_shape(s);
}

/// With no white space in `s`, the scan collects no word and keeps all of `s` open.
proof fn lemma_scan_no_space(s: Seq<char>)
    requires
        forall|i: int| 0 <= i < s.len() ==> !white_space(#[trigger] s[i]),
    ensures
        scan_words(s).0.len() == 0,
        scan_words(s).1 == s,
    decreases s.len(),
{
    if s.len() > 0 {
        let d = s.drop_last();
        assert forall|i: int| 0 <= i < d.len() implies !white_space(#[trigger] d[i]) by {
            assert(d[i] == s[i]);
        }
        lemma_scan_no_space(d);
        assert(d.push(s.last()) =~= s);
    }
}

/// **A text without white space is one word**: the whole text, counted once
/// (and an empty text has no word).
pub proof fn lemma_one_word(s: Seq<char>)
    requires
        forall|i: int| 0 <= i < s.len() ==> !white_space(#[trigger] s[i]),
    ensures
        s.len() > 0 ==> words(s) == seq![s],
        s.len() == 0 ==> words(s).len() == 0,
        s.len() > 0 ==> occurrences(words(s), s) == 1,
{
    lemma_scan_no_space(s);
    if s.len() > 0 {
        assert(words(s) =~= seq![s]);
        assert(seq![s].drop_last() =~= Seq::<Seq<char>>::empty());
        assert(occurrences(Seq::<Seq<char>>::empty(), s) == 0);
        assert(seq![s].last() == s);
    }
}

/// **White space only separates**: a white-space character added at the end
/// of a text leaves its words unchanged.
pub proof fn lemma_trailing_space(s: Seq<char>, c: char)
    requires
        white_space(c),
    ensures
        words(s.push(c)) == words(s),
{
    assert(s.push(c).drop_last() =~= s);
}

/// The characters of `text`.
fn chars_of(text: &str) -> (r: Vec<char>)
    ensures
        r@ == text@,
{
    broadcast use vstd::string::axiom_spec_iter;

    let mut r: Vec<char> = Vec::new();
    for c in it: text.chars()
        invariant
            r@ == it.seq().take(it.index() as int),
    {
        r.push(c);
    }
    r
}

/// Every word of `text`, split at Unicode white space as `str::split_whitespace`
/// splits, with the number of times it occurs; each word once.
pub fn word_frequencies(text: &str) -> (r: Vec<(String, usize)>)
    ensures
        unique_keys(r@),
        forall|w: Seq<char>| #[trigger] label_map(r@).contains_key(w) == words(text@).contains(w),
        forall|w: Seq<char>|
            label_map(r@).contains_key(w) ==> #[trigger] label_map(r@)[w] == occurrences(
                words(text@),
                w,
            ),
{
    let chars = chars_of(text);
    let n = chars.len();
    let mut r: Vec<(String, usize)> = Vec::new();
    let mut start: usize = 0;
    let mut i: usize = 0;
    assert(text@.take(0) =~= Seq::<char>::empty());
    assert(text@.subrange(0, 0) =~= Seq::<char>::empty());
    while i < n
        invariant
            chars@ == text@,
            n == text@.len(),
            start <= i <= n,
            unique_keys(r@),
            scan_words(text@.take(i as int)).1 == text@.subrange(start as int, i as int),
            forall|w: Seq<char>|
                #[trigger] label_map(r@).contains_key(w) == scan_words(
                    text@.take(i as int),
                ).0.contains(w),
            forall|w: Seq<char>|
                label_map(r@).contains_key(w) ==> #[trigger] label_map(r@)[w] == occurrences(
                    scan_words(text@.take(i as int)).0,
                    w,
                ),
        decreases n - i,
    {
        let c = chars[i];
        let ghost done = scan_words(text@.take(i as int)).0;
        let ghost open = scan_words(text@.take(i as int)).1;
        proof {
            assert(text@.take(i + 1).drop_last() =~= text@.take(i as int));
            assert(text@.take(i + 1).last() == c);
            lemma_scan_len(text@.take(i as int));
        }
        if is_white_space(c) {
            if start < i {
                let w = text.substring_char(start, i).to_owned();
                proof {
                    if label_map(r@).contains_key(w@) {
                        lemma_occurrences_bound(done, w@);
                    }
                }
                let ghost before = r@;
                bump_count(&mut r, w);
                proof {
                    lemma_count_step(before, r@, done, open);
                }
            }
            start = i + 1;
            proof {
                assert(text@.subrange(start as int, i + 1) =~= Seq::<char>::empty());
            }
        } else {
            proof {
                assert(text@.subrange(start as int, i + 1) =~= open.push(c));
            }
        }
        i = i + 1;
    }
    assert(text@.take(n as int) =~= text@);
    if start < n {
        let ghost done = scan_words(text@).0;
        let ghost open = scan_words(text@).1;
        let w = text.substring_char(start, n).to_owned();
        proof {
            lemma_scan_len(text@);
            if label_map(r@).contains_key(w@) {
                lemma_occurrences_bound(done, w@);
            }
        }
        let ghost before = r@;
        bump_count(&mut r, w);
        proof {
            lemma_count_step(before, r@, done, open);
        }
    } else {
        assert(text@.subrange(start as int, n as int) =~= Seq::<char>::empty());
    }
    r
}

/// A word-count entry by the characters of its word.
pub open spec fn entry_view(e: (String, usize)) -> (Seq<char>, usize) {
    (e.0@, e.1)
}

/// The entries of `freq` whose word occurs more than once, in order.
pub fn duplicates(freq: &[(String, usize)]) -> (r: Vec<(String, usize)>)
    ensures
        r@.map_values(|e: (String, usize)| entry_view(e)) == freq@.map_values(
            |e: (String, usize)| entry_view(e),
        ).filter(|e: (Seq<char>, usize)| e.1 > 1),
{
    let ghost pred = |e: (Seq<char>, usize)| e.1 > 1;
    let ghost ev = |e: (String, usize)| entry_view(e);
    let mut r: Vec<(String, usize)> = Vec::new();
    let mut i: usize = 0;
    while i < freq.len()
        invariant
            i <= freq@.len(),
            pred == (|e: (Seq<char>, usize)| e.1 > 1),
            ev == (|e: (String, usize)| entry_view(e)),
            r@.map_values(ev) == freq@.take(i as int).map_values(ev).filter(pred),
        decreases freq@.len() - i,
    {
        proof {
            reveal_with_fuel(Seq::<_>::filter, 1);
            assert(freq@.take(i + 1).map_values(ev).drop_last() =~= freq@.take(i as int).map_values(
                ev,
            ));
        }
        if freq[i].1 > 1 {
            let word = freq[i].0.clone();
            let ghost before = r@;
            r.push((word, freq[i].1));
            proof {
                assert(r@.map_values(ev) =~= before.map_values(ev).push(ev(freq@[i as int])));
            }
        }
        i = i + 1;
    }
    assert(freq@.take(freq@.len() as int) =~= freq@);
    r
}

// ── Sums ──────────────────────────────────────────────────────────────────────
/// `s[0] + s[1] + … + s[n−1]`, added from the left.
pub open spec fn sum_spec<T: std::ops::Add<Output = T>>(s: Seq<T>) -> T
    decreases s.len(),
{
    if s.len() <= 1 {
        s[0]
    } else {
        sum_spec(s.drop_last()).add_spec(s.last())
    }
}

/// The addition of `T` follows its specification and every addition of the
/// left-to-right sum is allowed (for integers: none overflows).
pub open spec fn sum_defined<T: std::ops::Add<Output = T>>(s: Seq<T>) -> bool {
    &&& T::obeys_add_spec()
    &&& forall|i: int| 1 <= i < s.len() ==> #[trigger] sum_spec(s.take(i)).add_req(s[i])
}

/// **The sum adds every element**: appending `x` to a non-empty sequence adds
/// `x` to its sum, however long the sequence.
pub proof fn lemma_sum_push<T: std::ops::Add<Output = T>>(s: Seq<T>, x: T)
    requires
        s.len() > 0,
    ensures
        sum_spec(s.push(x)) == sum_spec(s).add_spec(x),
{
    assert(s.push(x).drop_last() =~= s);
}

/// **A one-element sum is that element.**
pub proof fn lemma_sum_single<T: std::ops::Add<Output = T>>(x: T)
    ensures
        sum_spec(seq![x]) == x,
{
}

pub trait Summable<T: std::ops::Add<Output = T> + Copy>: Sized {
    /// The elements being summed.
    spec fn items(&self) -> Seq<T>;

    /// The sum of the elements, from the left; there must be at least one.
    fn sum(self) -> (r: T)
        requires
            self.items().len() > 0,
            sum_defined(self.items()),
        ensures
            r == sum_spec(self.items()),
    ;
}

impl<T: std::ops::Add<Output = T> + Copy> Summable<T> for Vec<T> {
    open spec fn items(&self) -> Seq<T> {
        self@
    }

    fn sum(self) -> (r: T) {
        let mut total = self[0];
        let mut i: usize = 1;
        assert(self@.take(1) =~= seq![self@[0]]);
        while i < self.len()
            invariant
                1 <= i <= self@.len(),
                sum_defined(self@),
                total == sum_spec(self@.take(i as int)),
            decreases self@.len() - i,
        {
            let item = self[i];
            assert(self@.take(i + 1).drop_last() =~= self@.take(i as int));
            proof {
                assert(sum_spec(self@.take(i as int)).add_req(self@[i as int]));
            }
            total = total + item;
            i = i + 1;
        }
        assert(self@.take(self@.len() as int) =~= self@);
        total
    }
}

// ── A memoising cache ─────────────────────────────────────────────────────────
/// Values computed once per key and kept for later lookups.
pub struct Cache<K, V> {
    store: HashMap<K, V>,
}

impl<K, V> View for Cache<K, V> {
    type V = Map<K, V>;

    closed spec fn view(&self) -> Map<K, V> {
        self.store@
    }
}

impl<K: Eq + Hash + Clone, V: Clone> Cache<K, V> {
    /// An empty cache.
    pub fn new() -> (c: Self)
        ensures
            c@ == Map::<K, V>::empty(),
    {
        Cache { store: HashMap::new() }
    }

    /// The value cached for `key`; computed by `f` and cached first if there is none.
    ///
    /// What the store holds is known for key types whose equality and hash
    /// agree with equality of values (`obeys_key_model`); for other key types
    /// the lookups of `HashMap` have no specification, and nothing is stated.
    pub fn get_or_insert_with<F: FnOnce() -> V>(&mut self, key: K, f: F) -> (r: V)
        requires
            !(obeys_key_model::<K>() && old(self)@.contains_key(key)) ==> f.requires(()),
        ensures
            obeys_key_model::<K>() ==> {
                &&& old(self)@.contains_key(key) ==> final(self)@ == old(self)@ && cloned(
                    old(self)@[key],
                    r,
                )
                &&& !old(self)@.contains_key(key) ==> {
                    &&& f.ensures((), r)
                    &&& final(self)@.contains_key(key)
                    &&& cloned(r, final(self)@[key])
                    &&& final(self)@ == old(self)@.insert(key, final(self)@[key])
                }
            },
    {
        broadcast use vstd::std_specs::hash::axiom_random_state_builds_valid_hashers;
        broadcast use vstd::std_specs::hash::axiom_maps_deref_key_to_value;
        broadcast use vstd::std_specs::hash::axiom_contains_deref_key;

        match self.store.get(&key) {
            Some(v) => v.clone(),
            None => {
                let value = f();
                let stored = value.clone();
                self.store.insert(key, stored);
                value
            },
        }
    }
}

// ── Strings ───────────────────────────────────────────────────────────────────
/// The longer of two strings in bytes (the second on a tie).
pub fn longest<'a>(x: &'a str, y: &'a str) -> (r: &'a str)
    ensures
        r == (if x.len() > y.len() {
            x
        } else {
            y
        }),
{
    if x.len() > y.len() {
        x
    } else {
        y
    }
}

} // verus!
