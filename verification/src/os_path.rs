//! The operating system's paths as text.
//!
//! Such a path is a sequence of bytes, mostly UTF-8. Its text is what the bytes encode; a byte that
//! encodes nothing is written as a NUL, which no path holds, and the character with the byte's
//! number. So every path has a text, and the text tells the bytes.
use vstd::prelude::*;

use crate::text::chars_of;

verus! {

/// The text of a path.
pub open spec fn path_text(bytes: Seq<u8>) -> Seq<char>
    decreases bytes.len(),
{
    if bytes.len() == 0 {
        Seq::empty()
    } else if is_character(bytes) {
        seq![vstd::utf8::decode_first_scalar(bytes) as char] + path_text(
            vstd::utf8::pop_first_scalar(bytes),
        )
    } else {
        seq!['\0', bytes[0] as char] + path_text(bytes.drop_first())
    }
}

/// Whether the bytes start with a character other than NUL.
pub open spec fn is_character(bytes: Seq<u8>) -> bool {
    bytes.len() > 0 && bytes[0] != 0 && vstd::utf8::valid_first_scalar(bytes)
}

/// The bytes that a text stands for.
pub open spec fn path_bytes(t: Seq<char>) -> Seq<u8>
    decreases t.len(),
{
    if t.len() == 0 {
        Seq::empty()
    } else if is_marked(t) {
        seq![t[1] as u8] + path_bytes(t.skip(2))
    } else {
        vstd::utf8::encode_utf8(seq![t[0]]) + path_bytes(t.drop_first())
    }
}

/// Whether the text starts with a marked byte.
pub open spec fn is_marked(t: Seq<char>) -> bool {
    t.len() >= 2 && t[0] == '\0' && (t[1] as u32) < 256
}

/// `String::from_utf8`: the text that bytes encode in UTF-8, if they do.
#[verifier::external_body]
fn utf8_text(bytes: Vec<u8>) -> (r: Option<String>)
    ensures
        match r {
            Some(s) => vstd::utf8::valid_utf8(bytes@) && s@ == vstd::utf8::decode_utf8(bytes@),
            None => !vstd::utf8::valid_utf8(bytes@),
        },
{
    String::from_utf8(bytes).ok()
}

/// A first character takes up to four bytes, which encode it alone.
proof fn lemma_first_scalar(bytes: Seq<u8>)
    requires
        vstd::utf8::valid_first_scalar(bytes),
    ensures
        ({
            let n = vstd::utf8::length_of_first_scalar(bytes);
            &&& 1 <= n <= 4
            &&& n <= bytes.len()
            &&& vstd::utf8::valid_utf8(bytes.take(n))
            &&& vstd::utf8::decode_utf8(bytes.take(n)) == seq![
                vstd::utf8::decode_first_scalar(bytes) as char,
            ]
            &&& vstd::utf8::pop_first_scalar(bytes) == bytes.skip(n)
        }),
{
    let n = vstd::utf8::length_of_first_scalar(bytes);
    let one = bytes.take(n);
    assert(vstd::utf8::valid_first_scalar(one));
    assert(vstd::utf8::pop_first_scalar(one) =~= Seq::<u8>::empty());
    assert(vstd::utf8::valid_utf8(vstd::utf8::pop_first_scalar(one)));
    assert(vstd::utf8::decode_utf8(vstd::utf8::pop_first_scalar(one)) =~= Seq::<char>::empty());
    assert(vstd::utf8::decode_utf8(one) =~= seq![vstd::utf8::decode_first_scalar(bytes) as char]);
    assert(vstd::utf8::pop_first_scalar(bytes) =~= bytes.skip(n));
}

/// What starts with encoded text starts with a character, which is no longer than that.
proof fn lemma_valid_prefix(bytes: Seq<u8>, w: int)
    requires
        0 < w <= bytes.len(),
        vstd::utf8::valid_utf8(bytes.take(w)),
    ensures
        vstd::utf8::valid_first_scalar(bytes),
        vstd::utf8::length_of_first_scalar(bytes) <= w,
{
    let some = bytes.take(w);
    assert(vstd::utf8::valid_first_scalar(some));
    assert forall|i: int| 0 <= i < w implies some[i] == bytes[i] by {}
}

/// The first `w` bytes from `i` on.
fn piece(bytes: &Vec<u8>, i: usize, w: usize) -> (r: Vec<u8>)
    requires
        i + w <= bytes@.len(),
    ensures
        r@ == bytes@.skip(i as int).take(w as int),
{
    let mut out: Vec<u8> = Vec::new();
    let mut k: usize = 0;
    while k < w
        invariant
            k <= w,
            i + w <= bytes@.len(),
            out@ == bytes@.skip(i as int).take(k as int),
        decreases w - k,
    {
        assert(i + k < bytes.len());
        out.push(bytes[i + k]);
        assert(out@ =~= bytes@.skip(i as int).take(k + 1));
        k = k + 1;
    }
    out
}

/// The text of a path.
pub fn to_text(bytes: &Vec<u8>) -> (r: String)
    ensures
        r@ == path_text(bytes@),
{
    let mut out = String::new();
    let mut i: usize = 0;
    assert(bytes@.skip(0) =~= bytes@);
    assert(out@ + path_text(bytes@.skip(0)) =~= path_text(bytes@));
    while i < bytes.len()
        invariant
            i <= bytes@.len(),
            out@ + path_text(bytes@.skip(i as int)) == path_text(bytes@),
        decreases bytes@.len() - i,
    {
        let ghost rest = bytes@.skip(i as int);
        let ghost before = out@;
        let mut w: usize = 0;
        let mut found: Option<String> = None;
        if bytes[i] != 0 {
            while w < 4 && w < bytes.len() - i && found.is_none()
                invariant
                    w <= 4,
                    i + w <= bytes@.len(),
                    rest == bytes@.skip(i as int),
                    forall|k: int|
                        0 < k <= w && (k < w || found is None) ==> !vstd::utf8::valid_utf8(
                            #[trigger] rest.take(k),
                        ),
                    found matches Some(s) ==> 0 < w && vstd::utf8::valid_utf8(
                        rest.take(w as int),
                    ) && s@ == vstd::utf8::decode_utf8(rest.take(w as int)),
                decreases 4 - w,
            {
                w = w + 1;
                found = utf8_text(piece(bytes, i, w));
            }
        }
        match found {
            Some(s) => {
                proof {
                    lemma_valid_prefix(rest, w as int);
                    lemma_first_scalar(rest);
                    let n = vstd::utf8::length_of_first_scalar(rest);
                    assert(vstd::utf8::valid_utf8(rest.take(n)));
                    assert(n == w);
                }
                out.append(s.as_str());
                assert(bytes@.skip(i + w) =~= rest.skip(w as int));
                assert(out@ + path_text(bytes@.skip(i + w)) =~= before + path_text(rest));
                i = i + w;
            },
            None => {
                proof {
                    assert(rest[0] == bytes@[i as int]);
                    if is_character(rest) {
                        lemma_first_scalar(rest);
                        let n = vstd::utf8::length_of_first_scalar(rest);
                        assert(vstd::utf8::valid_utf8(rest.take(n)));
                    }
                    assert(bytes@.skip(i + 1) =~= rest.drop_first());
                }
                out.push('\0');
                out.push(bytes[i] as char);
                assert(out@ + path_text(bytes@.skip(i + 1)) =~= before + path_text(rest));
                i = i + 1;
            },
        }
    }
    assert(bytes@.skip(i as int).len() == 0);
    assert(out@ + path_text(bytes@.skip(i as int)) =~= out@);
    out
}

/// The bytes that a text stands for.
pub fn to_bytes(t: &str) -> (r: Vec<u8>)
    ensures
        r@ == path_bytes(t@),
{
    let chars = chars_of(t);
    let mut out: Vec<u8> = Vec::new();
    let mut i: usize = 0;
    assert(chars@.skip(0) =~= t@);
    assert(out@ + path_bytes(chars@.skip(0)) =~= path_bytes(t@));
    while i < chars.len()
        invariant
            i <= chars@.len(),
            out@ + path_bytes(chars@.skip(i as int)) == path_bytes(t@),
        decreases chars@.len() - i,
    {
        let ghost rest = chars@.skip(i as int);
        let ghost before = out@;
        if chars[i] == '\0' && i + 1 < chars.len() && (chars[i + 1] as u32) < 256 {
            out.push(chars[i + 1] as u8);
            assert(chars@.skip(i + 2) =~= rest.skip(2));
            assert(out@ + path_bytes(chars@.skip(i + 2)) =~= before + path_bytes(rest));
            i = i + 2;
        } else {
            let mut one = String::new();
            one.push(chars[i]);
            assert(one@ =~= seq![rest[0]]);
            let encoded = one.as_str().as_bytes();
            let ghost all = encoded@;
            let mut k: usize = 0;
            assert(out@ =~= before + all.take(0));
            while k < encoded.len()
                invariant
                    k <= encoded@.len(),
                    all == encoded@,
                    out@ == before + all.take(k as int),
                decreases encoded@.len() - k,
            {
                out.push(encoded[k]);
                assert(out@ =~= before + all.take(k + 1));
                k = k + 1;
            }
            assert(all.take(k as int) =~= all);
            assert(chars@.skip(i + 1) =~= rest.drop_first());
            assert(out@ + path_bytes(chars@.skip(i + 1)) =~= before + path_bytes(rest));
            i = i + 1;
        }
    }
    assert(chars@.skip(i as int).len() == 0);
    assert(out@ + path_bytes(chars@.skip(i as int)) =~= out@);
    out
}

/// A byte other than 0 does not encode NUL alone, and 0 does.
proof fn lemma_single_byte(b: u8)
    by (bit_vector)
    ensures
        vstd::utf8::codepoint_width_1(0) == 0,
        vstd::utf8::is_leading_byte_width_1(0),
        vstd::utf8::is_leading_byte_width_1(b) && b != 0 ==> vstd::utf8::codepoint_width_1(b) != 0,
{
}

/// The text of a path tells its bytes.
pub proof fn law_text_tells_the_path(bytes: Seq<u8>)
    ensures
        path_bytes(path_text(bytes)) == bytes,
    decreases bytes.len(),
{
    let t = path_text(bytes);
    if bytes.len() == 0 {
    } else if is_character(bytes) {
        lemma_first_scalar(bytes);
        let n = vstd::utf8::length_of_first_scalar(bytes);
        let one = bytes.take(n);
        let c = vstd::utf8::decode_first_scalar(bytes) as char;
        let rest = vstd::utf8::pop_first_scalar(bytes);
        law_text_tells_the_path(rest);
        lemma_single_byte(bytes[0]);
        assert(one[0] == bytes[0]);
        vstd::utf8::decode_utf8_encode_utf8(one);
        assert(vstd::utf8::encode_utf8(seq![c]) == one);
        assert(t[0] == c);
        assert(c != '\0') by {
            assert(vstd::utf8::decode_first_scalar(bytes) != 0);
        }
        assert(t.drop_first() =~= path_text(rest));
        assert(path_bytes(t) =~= one + rest);
        assert(one + rest =~= bytes);
    } else {
        let rest = bytes.drop_first();
        law_text_tells_the_path(rest);
        assert(t.skip(2) =~= path_text(rest));
        assert(t[0] == '\0' && t[1] == bytes[0] as char);
        assert(path_bytes(t) =~= seq![bytes[0]] + rest);
        assert(seq![bytes[0]] + rest =~= bytes);
    }
}

/// A path that is text is written as that text.
pub proof fn law_text_stays_text(s: Seq<char>)
    requires
        !s.contains('\0'),
    ensures
        path_text(vstd::utf8::encode_utf8(s)) == s,
        path_bytes(s) == vstd::utf8::encode_utf8(s),
    decreases s.len(),
{
    let bytes = vstd::utf8::encode_utf8(s);
    if s.len() > 0 {
        let rest = s.drop_first();
        assert(!rest.contains('\0')) by {
            if rest.contains('\0') {
                let k = choose|k: int| 0 <= k < rest.len() && rest[k] == '\0';
                assert(s[k + 1] == '\0');
            }
        }
        law_text_stays_text(rest);
        vstd::utf8::encode_utf8_first_scalar(s);
        vstd::utf8::char_u32_cast(s[0], vstd::utf8::decode_first_scalar(bytes));
        lemma_single_byte(bytes[0]);
        assert(s.contains(s[0]));
        assert(s[0] != '\0');
        lemma_first_scalar(bytes);
        assert(vstd::utf8::pop_first_scalar(bytes) =~= vstd::utf8::encode_utf8(rest));
        assert(bytes[0] != 0);
        assert(path_text(bytes) =~= s);
        let one = seq![s[0]];
        assert(one.drop_first() =~= Seq::<char>::empty());
        assert(vstd::utf8::encode_utf8(one) =~= vstd::utf8::encode_scalar(s[0] as u32)) by {
            assert(vstd::utf8::encode_utf8(one.drop_first()) =~= Seq::<u8>::empty());
        }
    } else {
        assert(path_text(bytes) =~= s);
    }
}

} // verus!
