//! Digram frequencies of a ciphertext.
use vstd::prelude::*;
use vstd::string::StrSliceExecFns;
use vstd::utf8::{is_ascii_chars, is_ascii_chars_encode_utf8};
use std::collections::HashMap;
use crate::attack::B2;

verus! {

/// The `i`-th digram: the characters at `2i` and `2i + 1`.
pub open spec fn digram_at(s: Seq<char>, i: int) -> (char, char) {
    (s[2 * i], s[2 * i + 1])
}

/// Number of the first `k` digrams equal to `d`.
pub open spec fn count_prefix(s: Seq<char>, d: (char, char), k: int) -> int
    decreases k,
{
    if k <= 0 {
        0
    } else {
        count_prefix(s, d, k - 1) + if digram_at(s, k - 1) == d { 1int } else { 0int }
    }
}

/// Number of digrams of `s` equal to `d`.
pub open spec fn digram_count(s: Seq<char>, d: (char, char)) -> int {
    count_prefix(s, d, s.len() as int / 2)
}

/// The two-letter text of a digram.
pub open spec fn digram_text(d: (char, char)) -> Seq<char> {
    seq![d.0, d.1]
}

/// `d` is one of the first `k` digrams of `s`.
pub open spec fn occurs_in(s: Seq<char>, d: (char, char), k: int) -> bool {
    exists|p: int| 0 <= p < k && digram_at(s, p) == d
}

/// Some entry of `keys` equals `d`.
pub open spec fn is_key(keys: Seq<(char, char)>, d: (char, char)) -> bool {
    exists|t: int| 0 <= t < keys.len() && keys[t] == d
}

/// Some entry of the ranking has the text `text`.
pub open spec fn is_ranked(r: Seq<(String, i32)>, text: Seq<char>) -> bool {
    exists|t: int| 0 <= t < r.len() && r[t].0@ == text
}

/// The ranking entry `e` is the text and count of an entry of the table.
pub open spec fn from_table(e: (String, i32), keys: Seq<(char, char)>, counts: Seq<i32>) -> bool {
    exists|j: int| 0 <= j < keys.len() && e.0@ == digram_text(keys[j]) && e.1 == counts[j]
}

/// The ranking entry `e` is the text and count of a digram of `s`.
pub open spec fn counted_digram(e: (String, i32), s: Seq<char>) -> bool {
    exists|i: int| 0 <= i < s.len() / 2 && e.0@ == digram_text(digram_at(s, i)) && e.1 == digram_count(s, digram_at(s, i))
}

proof fn lemma_count_prefix_bounds(s: Seq<char>, d: (char, char), k: int)
    requires
        k >= 0,
    ensures
        0 <= count_prefix(s, d, k) <= k,
    decreases k,
{
    if k > 0 {
        lemma_count_prefix_bounds(s, d, k - 1);
    }
}

/// A digram of two characters below 256, as read from bytes.
pub open spec fn is_byte_digram(d: (char, char)) -> bool {
    0 <= (d.0 as int) < 256 && 0 <= (d.1 as int) < 256
}

/// The integer code of a byte digram.
pub open spec fn digram_code(d: (char, char)) -> int {
    (d.0 as int) * 256 + (d.1 as int)
}

/// `index` maps the code of each digram of `keys` to its position, and holds nothing else.
pub open spec fn indexes(index: Map<u32, usize>, keys: Seq<(char, char)>) -> bool {
    &&& forall|t: int| 0 <= t < keys.len() ==> #[trigger] is_byte_digram(keys[t])
    &&& forall|t: int| 0 <= t < keys.len() ==> index.contains_key(#[trigger] digram_code(keys[t]) as u32)
    &&& forall|code: u32| #[trigger] index.contains_key(code) ==> {
        &&& (index[code] as int) < keys.len()
        &&& digram_code(keys[index[code] as int]) == code
    }
}

/// The position of `d` among `keys`, if it is there, looked up by its code.
fn find_digram(index: &HashMap<u32, usize>, keys: &Vec<(char, char)>, d: (char, char), code: u32) -> (r: Option<usize>)
    requires
        indexes(index@, keys@),
        is_byte_digram(d),
        code == digram_code(d),
    ensures
        r matches Some(t) ==> t < keys.len() && keys@[t as int] == d,
        r is None ==> forall|t: int| 0 <= t < keys.len() ==> keys@[t] != d,
{
    broadcast use vstd::std_specs::hash::group_hash_axioms;
    match index.get(&code) {
        Some(t) => {
            let t = *t;
            assert(digram_code(keys@[t as int]) == digram_code(d));
            assert(is_byte_digram(keys@[t as int]));
            let ghost k = keys@[t as int];
            assert(k.0 as int == d.0 as int && k.1 as int == d.1 as int);
            assert(k.0 == d.0 && k.1 == d.1);
            Some(t)
        },
        None => {
            assert forall|t: int| 0 <= t < keys.len() implies keys@[t] != d by {
                assert(index@.contains_key(digram_code(keys@[t]) as u32));
            }
            None
        },
    }
}

/// The text of a digram as a `String`.
fn digram_string(d: (char, char)) -> (r: String)
    ensures
        r@ == digram_text(d),
{
    let mut r = String::new();
    r.push(d.0);
    r.push(d.1);
    assert(r@ =~= digram_text(d));
    r
}

/// The characters of a byte string read one byte per character.
pub open spec fn chars_of(bytes: Seq<u8>) -> Seq<char> {
    bytes.map_values(|b: u8| b as char)
}

/// The distinct digrams of the bytes with their counts.
fn count_digrams(bytes: &Vec<u8>) -> (r: (Vec<(char, char)>, Vec<i32>))
    requires
        bytes.len() % 2 == 0,
        bytes.len() / 2 <= i32::MAX,
    ensures
        r.0.len() == r.1.len(),
        forall|t: int| 0 <= t < r.0.len() ==> occurs_in(chars_of(bytes@), #[trigger] r.0@[t], bytes.len() as int / 2),
        forall|p: int| 0 <= p < bytes.len() / 2 ==> is_key(r.0@, #[trigger] digram_at(chars_of(bytes@), p)),
        forall|t1: int, t2: int| 0 <= t1 < r.0.len() && 0 <= t2 < r.0.len() && t1 != t2 ==> r.0@[t1] != r.0@[t2],
        forall|t: int| 0 <= t < r.0.len() ==> #[trigger] r.1@[t] == digram_count(chars_of(bytes@), r.0@[t]),
        forall|t: int| 0 <= t < r.0.len() ==> #[trigger] r.1@[t] >= 1,
{
    let ghost s = chars_of(bytes@);
    let n = bytes.len() / 2;
    let mut keys: Vec<(char, char)> = Vec::new();
    let mut counts: Vec<i32> = Vec::new();
    let mut index: HashMap<u32, usize> = HashMap::new();
    let mut i: usize = 0;
    while i < n
        invariant
            indexes(index@, keys@),
            s == chars_of(bytes@),
            n == bytes.len() / 2,
            bytes.len() % 2 == 0,
            n <= i32::MAX,
            i <= n,
            keys.len() == counts.len(),
            forall|t: int| 0 <= t < keys.len() ==> occurs_in(s, #[trigger] keys@[t], i as int),
            forall|p: int| 0 <= p < i ==> is_key(keys@, #[trigger] digram_at(s, p)),
            forall|t1: int, t2: int| 0 <= t1 < keys.len() && 0 <= t2 < keys.len() && t1 != t2 ==> keys@[t1] != keys@[t2],
            forall|t: int| 0 <= t < keys.len() ==> #[trigger] counts@[t] == count_prefix(s, keys@[t], i as int),
            forall|t: int| 0 <= t < keys.len() ==> #[trigger] counts@[t] >= 1,
        decreases n - i,
    {
        let d = (bytes[2 * i] as char, bytes[2 * i + 1] as char);
        let code: u32 = (bytes[2 * i] as u32) * 256 + (bytes[2 * i + 1] as u32);
        assert(d == digram_at(s, i as int));
        assert(is_byte_digram(d) && code == digram_code(d));
        let ghost old_keys = keys@;
        let ghost old_counts = counts@;
        match find_digram(&index, &keys, d, code) {
            Some(t) => {
                proof {
                    lemma_count_prefix_bounds(s, d, i as int);
                }
                let x = counts[t] + 1;
                counts.set(t, x);
            },
            None => {
                assert(count_prefix(s, d, i as int) == 0) by {
                    if count_prefix(s, d, i as int) != 0 {
                        lemma_first_occurrence(s, d, i as int);
                        let p = choose|p: int| 0 <= p < i && #[trigger] digram_at(s, p) == d;
                        assert(is_key(keys@, digram_at(s, p)));
                    }
                }
                proof {
                    broadcast use vstd::std_specs::hash::group_hash_axioms;
                }
                let ghost old_index = index@;
                index.insert(code, keys.len());
                keys.push(d);
                counts.push(1);
                proof {
                    broadcast use vstd::std_specs::hash::group_hash_axioms;
                    assert forall|t: int| 0 <= t < keys.len() implies index@.contains_key(
                        #[trigger] digram_code(keys@[t]) as u32,
                    ) by {
                        if t < old_keys.len() {
                            assert(keys@[t] == old_keys[t]);
                        }
                    }
                    assert forall|c: u32| #[trigger] index@.contains_key(c) implies {
                        &&& (index@[c] as int) < keys.len()
                        &&& digram_code(keys@[index@[c] as int]) == c
                    } by {
                        if c != code {
                            assert(old_index.contains_key(c));
                            assert(keys@[old_index[c] as int] == old_keys[old_index[c] as int]);
                        }
                    }
                }
            },
        }
        assert forall|t: int| 0 <= t < keys.len() implies #[trigger] counts@[t] == count_prefix(s, keys@[t], i + 1) by {
            if t < old_keys.len() {
                assert(keys@[t] == old_keys[t]);
            }
        }
        assert forall|t: int| 0 <= t < keys.len() implies occurs_in(s, #[trigger] keys@[t], i + 1) by {
            if t < old_keys.len() {
                assert(keys@[t] == old_keys[t]);
                assert(occurs_in(s, old_keys[t], i as int));
                let p = choose|p: int| 0 <= p < i && digram_at(s, p) == old_keys[t];
                assert(0 <= p < i + 1 && digram_at(s, p) == keys@[t]);
            } else {
                assert(0 <= i < i + 1 && digram_at(s, i as int) == keys@[t]);
            }
        }
        assert forall|p: int| 0 <= p < i + 1 implies is_key(keys@, #[trigger] digram_at(s, p)) by {
            if p < i {
                assert(is_key(old_keys, digram_at(s, p)));
                let t = choose|t: int| 0 <= t < old_keys.len() && old_keys[t] == digram_at(s, p);
                assert(keys@[t] == old_keys[t]);
            } else if old_keys.len() < keys.len() {
                assert(keys@[old_keys.len() as int] == d);
            } else {
                let t = choose|t: int| 0 <= t < keys.len() && keys@[t] == d;
                assert(keys@[t] == d);
            }
        }
        i = i + 1;
    }
    (keys, counts)
}

impl B2 {
    /// Each distinct digram of the ciphertext, read at even positions, with its number of
    /// occurrences, by decreasing count.
    pub fn top_digrams(&self) -> (r: Vec<(String, i32)>)
        requires
            is_ascii_chars(self.ciphertext@),
            self.ciphertext@.len() % 2 == 0,
            self.ciphertext@.len() / 2 <= i32::MAX,
        ensures
            forall|t: int| 0 <= t < r.len() ==> counted_digram(#[trigger] r@[t], self.ciphertext@),
            forall|i: int| 0 <= i < self.ciphertext@.len() / 2 ==> is_ranked(
                r@,
                digram_text(#[trigger] digram_at(self.ciphertext@, i)),
            ),
            forall|t1: int, t2: int| 0 <= t1 < r.len() && 0 <= t2 < r.len() && t1 != t2
                ==> r@[t1].0@ != r@[t2].0@,
            forall|t1: int, t2: int| 0 <= t1 < t2 < r.len() ==> r@[t1].1 >= r@[t2].1,
    {
        let ghost s = self.ciphertext@;
        let bytes = self.ciphertext.as_str().as_bytes_vec();
        proof {
            is_ascii_chars_encode_utf8(s);
            assert forall|p: int| 0 <= p < s.len() implies chars_of(bytes@)[p] == s[p] by {
                assert('\0' <= s[p] <= '\u{7f}');
            }
            assert(chars_of(bytes@) =~= s);
        }
        let (keys, counts) = count_digrams(&bytes);
        let r = rank_by_count(&keys, &counts);
        assert forall|t: int| 0 <= t < r.len() implies counted_digram(#[trigger] r@[t], s) by {
            assert(from_table(r@[t], keys@, counts@));
            let j = choose|j: int| 0 <= j < keys.len() && r@[t].0@ == digram_text(keys@[j]) && r@[t].1 == counts@[j];
            assert(occurs_in(chars_of(bytes@), keys@[j], bytes.len() as int / 2));
            let p = choose|p: int| 0 <= p < bytes.len() / 2 && digram_at(chars_of(bytes@), p) == keys@[j];
            assert(counts@[j] == digram_count(s, keys@[j]));
            assert(digram_at(s, p) == keys@[j]);
        }
        assert forall|i: int| 0 <= i < s.len() / 2 implies is_ranked(r@, digram_text(#[trigger] digram_at(s, i))) by {
            assert(digram_at(chars_of(bytes@), i) == digram_at(s, i));
            assert(is_key(keys@, digram_at(chars_of(bytes@), i)));
            let j = choose|j: int| 0 <= j < keys.len() && keys@[j] == digram_at(chars_of(bytes@), i);
            assert(is_ranked(r@, digram_text(keys@[j])));
        }
        r
    }
}

/// `x` comes before `y` in the ranking: higher count first, then lower position.
spec fn ranks_before(counts: Seq<i32>, x: int, y: int) -> bool {
    counts[x] > counts[y] || (counts[x] == counts[y] && x < y)
}

/// The digrams with their counts, by decreasing count.
fn rank_by_count(keys: &Vec<(char, char)>, counts: &Vec<i32>) -> (r: Vec<(String, i32)>)
    requires
        keys.len() == counts.len(),
        forall|t1: int, t2: int| 0 <= t1 < keys.len() && 0 <= t2 < keys.len() && t1 != t2 ==> keys@[t1] != keys@[t2],
        forall|t: int| 0 <= t < keys.len() ==> #[trigger] counts@[t] >= 1,
    ensures
        forall|t: int| 0 <= t < r.len() ==> from_table(#[trigger] r@[t], keys@, counts@),
        forall|j: int| 0 <= j < keys.len() ==> is_ranked(r@, digram_text(#[trigger] keys@[j])),
        forall|t1: int, t2: int| 0 <= t1 < r.len() && 0 <= t2 < r.len() && t1 != t2 ==> r@[t1].0@ != r@[t2].0@,
        forall|t1: int, t2: int| 0 <= t1 < t2 < r.len() ==> r@[t1].1 >= r@[t2].1,
{
    let mut maxc: i32 = 0;
    let mut j: usize = 0;
    while j < counts.len()
        invariant
            j <= counts.len(),
            0 <= maxc,
            forall|u: int| 0 <= u < j ==> counts@[u] <= maxc,
        decreases counts.len() - j,
    {
        if counts[j] > maxc {
            maxc = counts[j];
        }
        j = j + 1;
    }
    let mut r: Vec<(String, i32)> = Vec::new();
    let ghost mut idx: Seq<int> = Seq::empty();
    let mut c: i32 = maxc;
    while c > 0
        invariant
            keys.len() == counts.len(),
            forall|t1: int, t2: int| 0 <= t1 < keys.len() && 0 <= t2 < keys.len() && t1 != t2 ==> keys@[t1] != keys@[t2],
            forall|t: int| 0 <= t < keys.len() ==> #[trigger] counts@[t] >= 1,
            forall|u: int| 0 <= u < counts.len() ==> counts@[u] <= maxc,
            0 <= c <= maxc,
            r.len() == idx.len(),
            forall|t: int| 0 <= t < idx.len() ==> 0 <= #[trigger] idx[t] < keys.len(),
            forall|t: int| #![trigger r@[t]] 0 <= t < idx.len() ==> r@[t].0@ == digram_text(keys@[idx[t]]) && r@[t].1 == counts@[idx[t]],
            forall|t: int| 0 <= t < idx.len() ==> counts@[#[trigger] idx[t]] > c,
            forall|t1: int, t2: int| 0 <= t1 < t2 < idx.len() ==> ranks_before(counts@, #[trigger] idx[t1], #[trigger] idx[t2]),
            forall|u: int| 0 <= u < keys.len() && #[trigger] counts@[u] > c ==> exists|t: int| 0 <= t < idx.len() && #[trigger] idx[t] == u,
        decreases c,
    {
        let mut j: usize = 0;
        while j < keys.len()
            invariant
                keys.len() == counts.len(),
                forall|t1: int, t2: int| 0 <= t1 < keys.len() && 0 <= t2 < keys.len() && t1 != t2 ==> keys@[t1] != keys@[t2],
                forall|t: int| 0 <= t < keys.len() ==> #[trigger] counts@[t] >= 1,
                forall|u: int| 0 <= u < counts.len() ==> counts@[u] <= maxc,
                0 < c <= maxc,
                j <= keys.len(),
                r.len() == idx.len(),
                forall|t: int| 0 <= t < idx.len() ==> 0 <= #[trigger] idx[t] < keys.len(),
                forall|t: int| #![trigger r@[t]] 0 <= t < idx.len() ==> r@[t].0@ == digram_text(keys@[idx[t]]) && r@[t].1 == counts@[idx[t]],
                forall|t: int| 0 <= t < idx.len() ==> counts@[#[trigger] idx[t]] > c || (counts@[idx[t]] == c && idx[t] < j),
                forall|t1: int, t2: int| 0 <= t1 < t2 < idx.len() ==> ranks_before(counts@, #[trigger] idx[t1], #[trigger] idx[t2]),
                forall|u: int| 0 <= u < keys.len() && (#[trigger] counts@[u] > c || (counts@[u] == c && u < j))
                    ==> exists|t: int| 0 <= t < idx.len() && #[trigger] idx[t] == u,
            decreases keys.len() - j,
        {
            let ghost old_idx = idx;
            if counts[j] == c {
                let text = digram_string(keys[j]);
                r.push((text, c));
                proof {
                    idx = idx.push(j as int);
                }
                assert(idx[idx.len() - 1] == j);
            }
            assert forall|u: int| 0 <= u < keys.len() && (#[trigger] counts@[u] > c || (counts@[u] == c && u < j + 1))
                implies exists|t: int| 0 <= t < idx.len() && #[trigger] idx[t] == u by {
                if u == j && counts@[u] == c {
                    assert(idx[idx.len() - 1] == u);
                } else {
                    let t = choose|t: int| 0 <= t < old_idx.len() && #[trigger] old_idx[t] == u;
                    assert(idx[t] == u);
                }
            }
            j = j + 1;
        }
        c = c - 1;
    }
    assert forall|j: int| 0 <= j < keys.len() implies is_ranked(r@, digram_text(#[trigger] keys@[j])) by {
        assert(counts@[j] > 0);
        let t = choose|t: int| 0 <= t < idx.len() && #[trigger] idx[t] == j;
        assert(r@[t].0@ == digram_text(keys@[j]));
    }
    assert forall|t1: int, t2: int| 0 <= t1 < r.len() && 0 <= t2 < r.len() && t1 != t2 implies r@[t1].0@ != r@[t2].0@ by {
        if t1 < t2 {
            assert(ranks_before(counts@, idx[t1], idx[t2]));
        } else {
            assert(ranks_before(counts@, idx[t2], idx[t1]));
        }
        assert(keys@[idx[t1]] != keys@[idx[t2]]);
        if r@[t1].0@ == r@[t2].0@ {
            assert(r@[t1].0@[0] == keys@[idx[t1]].0 && r@[t1].0@[1] == keys@[idx[t1]].1);
            assert(r@[t2].0@[0] == keys@[idx[t2]].0 && r@[t2].0@[1] == keys@[idx[t2]].1);
        }
    }
    assert forall|t1: int, t2: int| 0 <= t1 < t2 < r.len() implies r@[t1].1 >= r@[t2].1 by {
        assert(ranks_before(counts@, idx[t1], idx[t2]));
    }
    assert forall|t: int| 0 <= t < r.len() implies from_table(#[trigger] r@[t], keys@, counts@) by {
        let j = idx[t];
        assert(0 <= j < keys.len() && r@[t].0@ == digram_text(keys@[j]) && r@[t].1 == counts@[j]);
    }
    r
}

/// Some digram before the `k`-th equals `d` when `d` has been counted there.
proof fn lemma_first_occurrence(s: Seq<char>, d: (char, char), k: int)
    requires
        k >= 0,
        count_prefix(s, d, k) != 0,
    ensures
        exists|p: int| 0 <= p < k && #[trigger] digram_at(s, p) == d,
    decreases k,
{
    if k > 0 && digram_at(s, k - 1) != d {
        lemma_first_occurrence(s, d, k - 1);
    }
}

} // verus!
