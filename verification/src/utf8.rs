//! Bytes as UTF-8 text: what is valid, what is cut short, and decoding what is not valid.

use crate::text::{chars_of, utf8_bytes};
use vstd::prelude::*;
use vstd::utf8::{
    decode_utf8, encode_scalar, length_of_first_scalar, pop_first_scalar, take_first_scalar,
    valid_first_scalar, valid_utf8,
};

verus! {

/// Whether `rest` is the beginning of the encoding of `c`, but not all of it.
pub open spec fn begins_char(rest: Seq<u8>, c: char) -> bool {
    let whole = encode_scalar(c as u32);
    0 < rest.len() < whole.len() && whole.take(rest.len() as int) == rest
}

/// Whether `rest` is a character cut short.
pub open spec fn cut_short(rest: Seq<u8>) -> bool {
    exists|c: char| begins_char(rest, c)
}

/// Whether the first `n` bytes are valid and no longer beginning is.
pub open spec fn is_longest_valid(bytes: Seq<u8>, n: int) -> bool {
    &&& 0 <= n <= bytes.len()
    &&& valid_utf8(bytes.take(n))
    &&& forall|i: int| n < i <= bytes.len() ==> !valid_utf8(#[trigger] bytes.take(i))
}

/// The length of the longest valid beginning.
pub open spec fn longest_valid(bytes: Seq<u8>) -> int {
    choose|n: int| is_longest_valid(bytes, n)
}

/// How many bytes can be passed on: all, except for a character cut short at the end. What is not
/// valid for another reason is passed on as it is.
pub open spec fn passable(bytes: Seq<u8>) -> int {
    let n = longest_valid(bytes);
    if n < bytes.len() && cut_short(bytes.skip(n)) {
        n
    } else {
        bytes.len() as int
    }
}

/// The text that bytes are decoded as, with a replacement character for what is not valid.
pub uninterp spec fn lossy(bytes: Seq<u8>) -> Seq<char>;

/// `std::str::from_utf8` accepts valid bytes. Of others it says up to where they are valid, and
/// whether what follows is a character that the end cuts short.
#[verifier::external_body]
fn utf8_fault(bytes: &[u8]) -> (r: Option<(usize, bool)>)
    ensures
        match r {
            None => valid_utf8(bytes@),
            Some((n, cut)) => !valid_utf8(bytes@) && is_longest_valid(bytes@, n as int) && cut
                == cut_short(bytes@.skip(n as int)),
        },
{
    match std::str::from_utf8(bytes) {
        Ok(_) => None,
        Err(e) => Some((e.valid_up_to(), e.error_len().is_none())),
    }
}

/// `String::from_utf8_lossy` decodes valid bytes as what they encode, and puts replacement
/// characters for the rest.
#[verifier::external_body]
pub(crate) fn lossy_text(bytes: &[u8]) -> (r: String)
    ensures
        r@ == lossy(bytes@),
        valid_utf8(bytes@) ==> r@ == decode_utf8(bytes@),
{
    String::from_utf8_lossy(bytes).into_owned()
}

/// Two lengths of the longest valid beginning are the same.
proof fn lemma_longest_unique(bytes: Seq<u8>, n: int)
    requires
        is_longest_valid(bytes, n),
    ensures
        longest_valid(bytes) == n,
{
    let m = longest_valid(bytes);
    assert(is_longest_valid(bytes, m));
    if m < n {
        assert(!valid_utf8(bytes.take(n)));
    } else if n < m {
        assert(!valid_utf8(bytes.take(m)));
    }
}

proof fn lemma_valid_is_longest(bytes: Seq<u8>)
    requires
        valid_utf8(bytes),
    ensures
        is_longest_valid(bytes, bytes.len() as int),
{
    assert(bytes.take(bytes.len() as int) =~= bytes);
}

/// The length of the longest beginning that can be passed on as text: everything, or everything
/// but a character that the end cuts short.
pub fn valid_utf8_prefix_len(bytes: &[u8]) -> (r: usize)
    ensures
        r == passable(bytes@),
        r <= bytes@.len(),
{
    match utf8_fault(bytes) {
        None => {
            proof {
                lemma_valid_is_longest(bytes@);
                lemma_longest_unique(bytes@, bytes@.len() as int);
            }
            bytes.len()
        },
        Some((n, cut)) => {
            proof {
                lemma_longest_unique(bytes@, n as int);
                if n == bytes@.len() {
                    assert(bytes@.take(n as int) =~= bytes@);
                }
            }
            if cut {
                n
            } else {
                bytes.len()
            }
        },
    }
}

/// The first scalar of a longer sequence is the first scalar of the sequence.
proof fn lemma_first_scalar_stays(x: Seq<u8>, y: Seq<u8>)
    requires
        x.len() <= y.len(),
        y.take(x.len() as int) == x,
        valid_first_scalar(y),
        length_of_first_scalar(y) <= x.len(),
    ensures
        valid_first_scalar(x),
        length_of_first_scalar(x) == length_of_first_scalar(y),
        take_first_scalar(x) == take_first_scalar(y),
{
    let n = length_of_first_scalar(y);
    assert forall|i: int| 0 <= i < n implies x[i] == y[i] by {
        assert(y.take(x.len() as int)[i] == y[i]);
    }
    assert(take_first_scalar(x) =~= take_first_scalar(y));
}

proof fn lemma_longest_step(x: Seq<u8>)
    requires
        valid_first_scalar(x),
    ensures
        forall|n: int|
            is_longest_valid(pop_first_scalar(x), n) ==> #[trigger] is_longest_valid(
                x,
                n + length_of_first_scalar(x),
            ),
{
    let k = length_of_first_scalar(x);
    let rest = pop_first_scalar(x);
    assert forall|n: int| is_longest_valid(rest, n) implies #[trigger] is_longest_valid(
        x,
        n + k,
    ) by {
        assert forall|i: int| 0 <= i <= rest.len() implies valid_utf8(#[trigger] x.take(i + k))
            == valid_utf8(rest.take(i)) by {
            let front = x.take(i + k);
            lemma_first_scalar_stays(front, x);
            assert(pop_first_scalar(front) =~= rest.take(i));
        }
        assert(valid_utf8(x.take(n + k)));
        assert forall|i: int| n + k < i <= x.len() implies !valid_utf8(#[trigger] x.take(i)) by {
            let j = i - k;
            assert(!valid_utf8(rest.take(j)));
            assert(x.take(j + k) == x.take(i));
        }
    }
}

/// A beginning of valid bytes is valid up to a character that the end cuts short.
proof fn lemma_beginning_of_valid(x: Seq<u8>, y: Seq<u8>) -> (n: int)
    requires
        x.len() <= y.len(),
        y.take(x.len() as int) == x,
        valid_utf8(y),
    ensures
        is_longest_valid(x, n),
        n < x.len() ==> cut_short(x.skip(n)),
    decreases x.len(),
{
    if x.len() == 0 {
        assert(x.take(0) =~= x);
        0
    } else {
        let k = length_of_first_scalar(y);
        if k <= x.len() {
            lemma_first_scalar_stays(x, y);
            let a = pop_first_scalar(x);
            let b = pop_first_scalar(y);
            assert(b.take(a.len() as int) =~= a) by {
                assert forall|i: int| 0 <= i < a.len() implies b.take(a.len() as int)[i]
                    == a[i] by {
                    assert(y.take(x.len() as int)[i + k] == y[i + k]);
                }
            }
            let n = lemma_beginning_of_valid(a, b);
            lemma_longest_step(x);
            assert(is_longest_valid(x, n + k));
            assert(x.skip(n + k) =~= a.skip(n));
            n + k
        } else {
            let c = vstd::utf8::decode_first_scalar(y) as char;
            vstd::utf8::decode_utf8_first_scalar(y);
            let whole = encode_scalar(c as u32);
            assert(whole == take_first_scalar(y));
            assert(x.skip(0) =~= x);
            assert(whole.take(x.len() as int) =~= x) by {
                assert forall|i: int| 0 <= i < x.len() implies whole.take(x.len() as int)[i]
                    == x[i] by {
                    assert(y.take(x.len() as int)[i] == y[i]);
                }
            }
            assert(begins_char(x.skip(0), c));
            assert(x.take(0) =~= Seq::<u8>::empty());
            assert forall|i: int| 0 < i <= x.len() implies !valid_utf8(#[trigger] x.take(i)) by {
                let front = x.take(i);
                assert(front[0] == x[0]);
                assert(y.take(x.len() as int)[0] == y[0]);
                if valid_first_scalar(front) {
                    assert(length_of_first_scalar(front) == k);
                }
            }
            0
        }
    }
}

/// Where a stream of bytes is valid as a whole, what can be passed on of a beginning of it is
/// valid, and so is what remains.
pub proof fn law_valid_stream_passes_as_valid(seen: Seq<u8>, later: Seq<u8>)
    requires
        valid_utf8(seen + later),
    ensures
        valid_utf8(seen.take(passable(seen))),
        valid_utf8(seen.skip(passable(seen)) + later),
{
    let all = seen + later;
    assert(all.take(seen.len() as int) =~= seen);
    let n = lemma_beginning_of_valid(seen, all);
    lemma_longest_unique(seen, n);
    if n == seen.len() {
        assert(seen.take(n) =~= seen);
    }
    assert(passable(seen) == n);
    let rest = seen.skip(n) + later;
    if !valid_utf8(rest) {
        assert(all.subrange(0, n) =~= seen.take(n));
        assert(all.subrange(n, all.len() as int) =~= rest);
        vstd::utf8::partial_valid_partial_invalid_utf8(all, n);
    }
}

/// What bytes that are not empty begin with.
#[derive(Debug, Clone, Copy, PartialEq, Eq, Structural)]
pub enum FirstChar {
    /// A character, in that many bytes.
    Char(char, usize),
    /// A character cut short by the end.
    Cut,
    /// Nothing valid.
    Bad,
}

/// Whether that is what bytes begin with.
pub open spec fn begins_with(bytes: Seq<u8>, first: FirstChar) -> bool {
    match first {
        FirstChar::Char(c, n) => valid_first_scalar(bytes) && c
            == vstd::utf8::decode_first_scalar(bytes) as char && n == length_of_first_scalar(
            bytes,
        ) && 0 < n <= bytes.len(),
        FirstChar::Cut => !valid_first_scalar(bytes) && cut_short(bytes),
        FirstChar::Bad => !valid_first_scalar(bytes) && !cut_short(bytes),
    }
}

proof fn lemma_first_scalar_from_longest(bytes: Seq<u8>, n: int)
    requires
        is_longest_valid(bytes, n),
        bytes.len() > 0,
    ensures
        valid_first_scalar(bytes) == (n > 0),
        n > 0 ==> vstd::utf8::decode_first_scalar(bytes.take(n))
            == vstd::utf8::decode_first_scalar(bytes) && length_of_first_scalar(bytes.take(n))
            == length_of_first_scalar(bytes),
{
    let front = bytes.take(n);
    if n > 0 {
        assert(valid_first_scalar(front));
        let k = length_of_first_scalar(front);
        assert forall|i: int| 0 <= i < n implies front[i] == bytes[i] by {}
        assert(valid_first_scalar(bytes));
    } else if valid_first_scalar(bytes) {
        let k = length_of_first_scalar(bytes);
        let one = bytes.take(k);
        assert forall|i: int| 0 <= i < k implies one[i] == bytes[i] by {}
        assert(valid_first_scalar(one));
        assert(pop_first_scalar(one) =~= Seq::<u8>::empty());
        assert(valid_utf8(pop_first_scalar(one)));
        assert(valid_utf8(one));
    }
}

/// Finds the first character of bytes.
pub fn first_char(bytes: &[u8]) -> (r: FirstChar)
    requires
        bytes@.len() > 0,
    ensures
        begins_with(bytes@, r),
{
    let (n, cut) = match utf8_fault(bytes) {
        None => {
            proof {
                lemma_valid_is_longest(bytes@);
            }
            (bytes.len(), false)
        },
        Some((n, cut)) => (n, cut),
    };
    proof {
        lemma_first_scalar_from_longest(bytes@, n as int);
    }
    if n == 0 {
        proof {
            assert(bytes@.skip(0) =~= bytes@);
        }
        return if cut {
            FirstChar::Cut
        } else {
            FirstChar::Bad
        };
    }
    let front = vstd::slice::slice_subrange(bytes, 0, n);
    proof {
        assert(front@ =~= bytes@.take(n as int));
    }
    let text = lossy_text(front);
    let chars = chars_of(text.as_str());
    let c = chars[0];
    let one = [c];
    let size = utf8_bytes(one.as_slice()).len();
    proof {
        assert(chars@ == decode_utf8(front@));
        assert(c == vstd::utf8::decode_first_scalar(front@) as char);
        vstd::utf8::decode_utf8_first_scalar(front@);
        assert(one@ =~= seq![c]);
        assert(one@.drop_first() =~= Seq::<char>::empty());
        assert(vstd::utf8::encode_utf8(one@) =~= encode_scalar(c as u32)) by {
            reveal_with_fuel(vstd::utf8::encode_utf8, 2);
        }
        assert(take_first_scalar(front@).len() == length_of_first_scalar(front@));
    }
    FirstChar::Char(c, size)
}

/// The bytes of a character: it can be told from all of them and not before.
pub proof fn lemma_char_bytes(c: char)
    ensures
        ({
            let e = encode_scalar(c as u32);
            &&& e.len() > 0
            &&& valid_first_scalar(e)
            &&& length_of_first_scalar(e) == e.len()
            &&& vstd::utf8::decode_first_scalar(e) as char == c
            &&& (c as u32) < 0x80 ==> e == seq![c as u8]
            &&& (c as u32) >= 0x80 ==> e[0] >= 0x80
            &&& forall|i: int|
                0 < i < e.len() ==> !valid_first_scalar(#[trigger] e.take(i)) && cut_short(
                    e.take(i),
                )
        }),
{
    let e = encode_scalar(c as u32);
    let one = seq![c];
    assert(one.drop_first() =~= Seq::<char>::empty());
    assert(vstd::utf8::encode_utf8(one) =~= e) by {
        reveal_with_fuel(vstd::utf8::encode_utf8, 2);
    }
    vstd::utf8::encode_utf8_first_scalar(one);
    vstd::utf8::char_u32_cast(c, vstd::utf8::decode_first_scalar(e));
    vstd::utf8::char_is_scalar(c);
    let n = c as u32;
    if n < 0x80 {
        assert(n & 0x7f == n) by (bit_vector)
            requires
                n < 0x80,
        ;
        assert(e =~= seq![c as u8]);
    }
    assert forall|i: int| 0 < i < e.len() implies !valid_first_scalar(#[trigger] e.take(i))
        && cut_short(e.take(i)) by {
        let front = e.take(i);
        assert(front[0] == e[0]);
        assert(begins_char(front, c));
    }
}

/// Some beginning that is valid is the longest.
proof fn lemma_longest_exists(bytes: Seq<u8>, from: int) -> (n: int)
    requires
        0 <= from <= bytes.len(),
        forall|i: int| from < i <= bytes.len() ==> !valid_utf8(#[trigger] bytes.take(i)),
    ensures
        is_longest_valid(bytes, n),
    decreases from,
{
    if valid_utf8(bytes.take(from)) {
        from
    } else {
        assert(from > 0) by {
            assert(bytes.take(0) =~= Seq::<u8>::empty());
        }
        lemma_longest_exists(bytes, from - 1)
    }
}

/// What can be passed on is part of the whole.
pub proof fn lemma_passable(bytes: Seq<u8>)
    ensures
        0 <= passable(bytes) <= bytes.len(),
{
    let n = lemma_longest_exists(bytes, bytes.len() as int);
    lemma_longest_unique(bytes, n);
}

/// Valid bytes are passed on whole. Where the end cuts a character short, everything before that
/// character is passed on, and it is not; bytes that are not valid for another reason are passed on
/// as they are.
pub proof fn law_only_a_cut_character_is_held_back(valid: Seq<u8>, rest: Seq<u8>, c: char)
    requires
        valid_utf8(valid),
    ensures
        passable(valid) == valid.len(),
        ({
            let whole = encode_scalar(c as u32);
            0 < rest.len() < whole.len() && rest == whole.take(rest.len() as int) ==> passable(
                valid + rest,
            ) == valid.len()
        }),
        passable(valid + rest) < (valid + rest).len() ==> exists|n: int, d: char|
            0 <= n < (valid + rest).len() && n == passable(valid + rest) && begins_char(
                #[trigger] (valid + rest).skip(n),
                d,
            ) && #[trigger] encode_scalar(d as u32).len() > 0,
{
    lemma_valid_is_longest(valid);
    lemma_longest_unique(valid, valid.len() as int);
    let whole = encode_scalar(c as u32);
    let all = valid + rest;
    if 0 < rest.len() < whole.len() && rest == whole.take(rest.len() as int) {
        lemma_char_bytes(c);
        vstd::utf8::encode_utf8_valid_utf8(seq![c]);
        lemma_whole_char(c);
        vstd::utf8::valid_utf8_concat(valid, whole);
        let full = valid + whole;
        assert(full.take(all.len() as int) =~= all);
        let n = lemma_beginning_of_valid(all, full);
        lemma_longest_unique(all, n);
        assert(all.take(valid.len() as int) =~= valid);
        assert(n >= valid.len());
        if n > valid.len() {
            let k = n - valid.len();
            let piece = all.take(n);
            assert(piece =~= valid + whole.take(k));
            lemma_cut_is_not_valid(valid, whole, k);
        }
        assert(all.skip(n) =~= rest);
    }
    if passable(all) < all.len() {
        let n = passable(all);
        let d = choose|d: char| begins_char(all.skip(n), d);
        assert(begins_char(all.skip(n), d));
        lemma_char_bytes(d);
        let from = lemma_longest_exists(all, all.len() as int);
        lemma_longest_unique(all, from);
    }
}

proof fn lemma_whole_char(c: char)
    ensures
        valid_utf8(encode_scalar(c as u32)),
{
    let one = seq![c];
    vstd::utf8::encode_utf8_valid_utf8(one);
    assert(one.drop_first() =~= Seq::<char>::empty());
    assert(vstd::utf8::encode_utf8(one) =~= encode_scalar(c as u32)) by {
        reveal_with_fuel(vstd::utf8::encode_utf8, 2);
    }
}

/// A character cut short is not valid, whatever stands before it.
proof fn lemma_cut_is_not_valid(valid: Seq<u8>, whole: Seq<u8>, k: int)
    requires
        valid_utf8(valid),
        0 < k < whole.len(),
        forall|i: int| 0 < i < whole.len() ==> !valid_first_scalar(#[trigger] whole.take(i)),
    ensures
        !valid_utf8(valid + whole.take(k)),
    decreases valid.len(),
{
    let cut = whole.take(k);
    let all = valid + cut;
    if valid.len() == 0 {
        assert(all =~= cut);
        assert(!valid_first_scalar(cut));
    } else if valid_utf8(all) {
        let n = length_of_first_scalar(valid);
        assert(all.take(valid.len() as int) =~= valid);
        assert(valid_first_scalar(valid));
        assert(valid_first_scalar(all));
        assert(length_of_first_scalar(all) == n);
        assert(pop_first_scalar(all) =~= pop_first_scalar(valid) + cut);
        lemma_cut_is_not_valid(pop_first_scalar(valid), whole, k);
    }
}

} // verus!
