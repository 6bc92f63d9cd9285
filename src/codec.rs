//! Conversion between letters and digit blocks.
use vstd::prelude::*;
use vstd::string::StrSliceExecFns;
use vstd::utf8::{encode_utf8, is_ascii_chars, is_ascii_chars_encode_utf8};

verus! {

/// Relies on `String::push`: appends one character.
pub assume_specification[ String::push ](s: &mut String, ch: char)
    ensures
        final(s)@ == old(s)@.push(ch),
;

/// The letter of a digit: `'A'` for 0, `'B'` for 1, ...
pub open spec fn letter_of(x: i32) -> char {
    (x + 65) as char
}

/// The letters of the blocks, block after block.
pub open spec fn letters_of(blocks: Seq<Seq<i32>>) -> Seq<char>
    decreases blocks.len(),
{
    if blocks.len() == 0 {
        seq![]
    } else {
        letters_of(blocks.drop_last()) + blocks.last().map_values(|x: i32| letter_of(x))
    }
}

/// Every entry of every block is a digit of the alphabet `A`–`Z`.
pub open spec fn alphabet_digits(blocks: Seq<Seq<i32>>) -> bool {
    forall|i: int, j: int| 0 <= i < blocks.len() && 0 <= j < blocks[i].len() ==> 0 <= #[trigger] blocks[i][j] < 26
}

/// The bytes taken two at a time, each as its distance from `'A'`.
pub open spec fn byte_blocks(bytes: Seq<u8>) -> Seq<Seq<i32>> {
    Seq::new(bytes.len() / 2, |i: int| seq![(bytes[2 * i] - 65) as i32, (bytes[2 * i + 1] - 65) as i32])
}

/// The text spelled by the blocks, each digit `x` giving the letter `'A' + x`.
pub fn string_view(blocks: &[Vec<i32>]) -> (r: String)
    requires
        alphabet_digits(blocks@.map_values(|v: Vec<i32>| v@)),
    ensures
        r@ == letters_of(blocks@.map_values(|v: Vec<i32>| v@)),
{
    let ghost bs = blocks@.map_values(|v: Vec<i32>| v@);
    let mut r = String::new();
    let mut i: usize = 0;
    while i < blocks.len()
        invariant
            bs == blocks@.map_values(|v: Vec<i32>| v@),
            alphabet_digits(bs),
            i <= blocks.len(),
            r@ == letters_of(bs.take(i as int)),
        decreases blocks.len() - i,
    {
        let block = &blocks[i];
        let ghost prefix = r@;
        let mut j: usize = 0;
        while j < block.len()
            invariant
                bs == blocks@.map_values(|v: Vec<i32>| v@),
                alphabet_digits(bs),
                i < blocks.len(),
                *block == blocks@[i as int],
                j <= block.len(),
                r@ == prefix + block@.take(j as int).map_values(|x: i32| letter_of(x)),
            decreases block.len() - j,
        {
            assert(bs[i as int][j as int] == block@[j as int]);
            let c = ((block[j] + 65) as u8) as char;
            r.push(c);
            assert(block@.take(j + 1).map_values(|x: i32| letter_of(x)) =~= block@.take(j as int).map_values(
                |x: i32| letter_of(x),
            ).push(letter_of(block@[j as int])));
            j = j + 1;
        }
        assert(bs.take(i + 1).drop_last() =~= bs.take(i as int));
        assert(block@.take(block@.len() as int) =~= block@);
        i = i + 1;
    }
    assert(bs.take(blocks.len() as int) =~= bs);
    r
}

/// The text's bytes taken two at a time, each as its distance from `'A'`.
pub fn block_view(string: String) -> (r: Vec<Vec<i32>>)
    requires
        encode_utf8(string@).len() % 2 == 0,
    ensures
        r@.map_values(|v: Vec<i32>| v@) == byte_blocks(encode_utf8(string@)),
{
    let bytes = string.as_str().as_bytes_vec();
    let ghost target = byte_blocks(bytes@);
    let mut r: Vec<Vec<i32>> = Vec::new();
    let mut i: usize = 0;
    while i + 1 < bytes.len()
        invariant
            bytes@ == encode_utf8(string@),
            bytes.len() % 2 == 0,
            target == byte_blocks(bytes@),
            i % 2 == 0,
            i <= bytes.len(),
            r.len() == i / 2,
            forall|k: int| 0 <= k < r.len() ==> #[trigger] r@[k]@ == target[k],
        decreases bytes.len() - i,
    {
        let mut block: Vec<i32> = Vec::new();
        block.push(bytes[i] as i32 - 65);
        block.push(bytes[i + 1] as i32 - 65);
        assert(block@ =~= target[i as int / 2]);
        r.push(block);
        i = i + 2;
    }
    assert(r@.map_values(|v: Vec<i32>| v@) =~= target);
    r
}

/// A text of capital letters `A`–`Z`.
pub open spec fn is_uppercase_text(s: Seq<char>) -> bool {
    forall|i: int| 0 <= i < s.len() ==> 'A' <= #[trigger] s[i] <= 'Z'
}

proof fn lemma_letters_of_prefix(s: Seq<char>, k: int)
    requires
        is_uppercase_text(s),
        s.len() % 2 == 0,
        0 <= k <= s.len() / 2,
        encode_utf8(s).len() == s.len(),
        forall|i: int| 0 <= i < s.len() ==> s[i] as u8 == #[trigger] encode_utf8(s)[i],
    ensures
        letters_of(byte_blocks(encode_utf8(s)).take(k)) == s.take(2 * k),
    decreases k,
{
    let bb = byte_blocks(encode_utf8(s));
    if k == 0 {
        assert(bb.take(0) =~= Seq::<Seq<i32>>::empty());
        assert(s.take(0) =~= Seq::<char>::empty());
    } else {
        lemma_letters_of_prefix(s, k - 1);
        assert(bb.take(k).drop_last() =~= bb.take(k - 1));
        let c0 = s[2 * k - 2];
        let c1 = s[2 * k - 1];
        assert('A' <= c0 <= 'Z' && 'A' <= c1 <= 'Z');
        assert(letter_of(((c0 as u8) - 65) as i32) == c0);
        assert(letter_of(((c1 as u8) - 65) as i32) == c1);
        assert(bb.take(k).last().map_values(|x: i32| letter_of(x)) =~= seq![c0, c1]);
        assert(s.take(2 * k) =~= s.take(2 * k - 2) + seq![c0, c1]);
    }
}

/// Splitting an even-length text of capital letters into digit blocks and spelling the blocks
/// again gives back the text, and every digit lies in the alphabet.
pub proof fn lemma_block_round_trip(s: Seq<char>)
    requires
        is_uppercase_text(s),
        s.len() % 2 == 0,
    ensures
        alphabet_digits(byte_blocks(encode_utf8(s))),
        letters_of(byte_blocks(encode_utf8(s))) == s,
{
    assert(is_ascii_chars(s));
    is_ascii_chars_encode_utf8(s);
    let bb = byte_blocks(encode_utf8(s));
    assert forall|i: int, j: int| 0 <= i < bb.len() && 0 <= j < bb[i].len() implies 0 <= #[trigger] bb[i][j] < 26 by {
        assert('A' <= s[2 * i + j] <= 'Z');
    }
    lemma_letters_of_prefix(s, s.len() as int / 2);
    assert(bb.take(s.len() as int / 2) =~= bb);
    assert(s.take(s.len() as int) =~= s);
}

} // verus!
