//! Splitting delimited text records and decoding their bytes.
//!
//! A location record is UTF-8 text with positional fields separated by
//! `|`.  A field that is empty or the literal `0` stands for "unknown".

use vstd::prelude::*;
use vstd::string::{StrSliceExecFns, StringSliceAdditionalSpecFns};
use vstd::utf8::{decode_utf8, encode_utf8_decode_utf8, valid_utf8};

verus! {

/// The pieces of `s` split on the separator `sep`.  Splitting never yields
/// an empty list: text without a separator is one piece, and a separator
/// at the edge yields an empty piece beside it.
pub open spec fn split_chars(s: Seq<char>, sep: char) -> Seq<Seq<char>>
    decreases s.len(),
{
    if s.len() == 0 {
        seq![Seq::<char>::empty()]
    } else if s[0] == sep {
        seq![Seq::<char>::empty()] + split_chars(s.skip(1), sep)
    } else {
        let rest = split_chars(s.skip(1), sep);
        seq![seq![s[0]] + rest[0]] + rest.skip(1)
    }
}

/// Text without the separator splits into that one piece.
proof fn lemma_split_chars_no_sep(s: Seq<char>, sep: char)
    requires
        forall|k: int| 0 <= k < s.len() ==> s[k] != sep,
    ensures
        split_chars(s, sep) == seq![s],
    decreases s.len(),
{
    if s.len() == 0 {
        assert(s =~= Seq::<char>::empty());
        assert(split_chars(s, sep) =~~= seq![s]);
    } else {
        assert(forall|k: int| 0 <= k < s.skip(1).len() ==> s.skip(1)[k] != sep);
        lemma_split_chars_no_sep(s.skip(1), sep);
        assert(seq![s[0]] + s.skip(1) =~= s);
        assert(split_chars(s, sep) =~~= seq![s]);
    }
}

/// Splitting text whose first separator stands at `k` yields the piece
/// before `k` and then the split of the text after `k`.
proof fn lemma_split_chars_first_piece(s: Seq<char>, sep: char, k: int)
    requires
        0 <= k < s.len(),
        s[k] == sep,
        forall|j: int| 0 <= j < k ==> s[j] != sep,
    ensures
        split_chars(s, sep) == seq![s.subrange(0, k)] + split_chars(s.skip(k + 1), sep),
    decreases k,
{
    if k == 0 {
        assert(s.subrange(0, 0) =~= Seq::<char>::empty());
        assert(split_chars(s, sep) =~~= seq![s.subrange(0, 0)] + split_chars(s.skip(1), sep));
    } else {
        let t = s.skip(1);
        assert(t[k - 1] == s[k]);
        assert(forall|j: int| 0 <= j < k - 1 ==> t[j] == s[j + 1] && t[j] != sep);
        lemma_split_chars_first_piece(t, sep, k - 1);
        assert(t.subrange(0, k - 1) =~= s.subrange(1, k));
        assert(t.skip(k) =~= s.skip(k + 1));
        assert(seq![s[0]] + s.subrange(1, k) =~= s.subrange(0, k));
        assert(split_chars(s, sep) =~~= seq![s.subrange(0, k)] + split_chars(s.skip(k + 1), sep));
    }
}

/// The views of a list of borrowed text pieces.
pub open spec fn views_of(parts: Seq<&str>) -> Seq<Seq<char>> {
    parts.map_values(|p: &str| p@)
}

/// Split `s` on the separator `sep` into borrowed pieces, in order.
pub fn split_str<'a>(s: &'a str, sep: char) -> (parts: Vec<&'a str>)
    ensures
        views_of(parts@) == split_chars(s@, sep),
        parts@.len() == split_chars(s@, sep).len(),
        forall|i: int| 0 <= i < parts@.len() ==> (#[trigger] parts@[i])@ == split_chars(s@, sep)[i],
{
    let n = s.unicode_len();
    let mut parts: Vec<&'a str> = Vec::new();
    let mut start: usize = 0;
    let mut i: usize = 0;
    proof {
        assert(s@.skip(0) =~= s@);
        assert(views_of(Seq::<&str>::empty()) =~= Seq::<Seq<char>>::empty());
        assert(Seq::<Seq<char>>::empty() + split_chars(s@, sep) =~= split_chars(s@, sep));
    }
    while i < n
        invariant
            start <= i <= n,
            n == s@.len(),
            split_chars(s@, sep) == views_of(parts@) + split_chars(s@.skip(start as int), sep),
            forall|k: int| start <= k < i ==> s@[k] != sep,
        decreases n - i,
    {
        let c = s.get_char(i);
        if c == sep {
            let piece = s.substring_char(start, i);
            let ghost old_views = views_of(parts@);
            parts.push(piece);
            proof {
                let tail = s@.skip(start as int);
                assert(tail[i - start] == s@[i as int]);
                assert(forall|j: int| 0 <= j < i - start ==> tail[j] == s@[j + start] && tail[j]
                    != sep);
                lemma_split_chars_first_piece(tail, sep, i - start);
                assert(tail.subrange(0, i - start) =~= s@.subrange(start as int, i as int));
                assert(tail.skip(i - start + 1) =~= s@.skip(i as int + 1));
                assert(views_of(parts@) =~= old_views + seq![piece@]);
                assert(old_views + (seq![piece@] + split_chars(s@.skip(i as int + 1), sep))
                    =~= (old_views + seq![piece@]) + split_chars(s@.skip(i as int + 1), sep));
            }
            start = i + 1;
        }
        i = i + 1;
    }
    let last = s.substring_char(start, n);
    let ghost old_views = views_of(parts@);
    parts.push(last);
    proof {
        let tail = s@.skip(start as int);
        assert(forall|j: int| 0 <= j < tail.len() ==> tail[j] == s@[j + start] && tail[j] != sep);
        lemma_split_chars_no_sep(tail, sep);
        assert(last@ =~= tail);
        assert(views_of(parts@) =~= old_views + seq![last@]);
        assert(forall|k: int|
            0 <= k < parts@.len() ==> (#[trigger] parts@[k])@ == views_of(parts@)[k]);
    }
    parts
}

/// The value of positional field `i` of the split record: absent when the
/// record has no such position, and absent when the text there is empty or
/// the literal `0`.
pub open spec fn field_value(parts: Seq<Seq<char>>, i: int) -> Option<Seq<char>> {
    if 0 <= i < parts.len() && parts[i].len() > 0 && parts[i] != seq!['0'] {
        Some(parts[i])
    } else {
        None
    }
}

/// Relies on std::str::from_utf8: it returns Ok exactly when the bytes
/// are valid UTF-8, and the returned text is a view of those same bytes.
#[verifier::external_body]
fn bytes_to_str(v: &[u8]) -> (r: Option<&str>)
    ensures
        r is Some <==> valid_utf8(v@),
        r matches Some(t) ==> t.spec_bytes() == v@,
{
    match std::str::from_utf8(v) {
        Ok(t) => Some(t),
        Err(_) => None,
    }
}

/// Decode `v` as UTF-8 text: the decoded characters when the bytes are
/// valid UTF-8, nothing otherwise.
pub fn decode_text(v: &[u8]) -> (r: Option<&str>)
    ensures
        r is Some <==> valid_utf8(v@),
        r matches Some(t) ==> t@ == decode_utf8(v@),
{
    let r = bytes_to_str(v);
    proof {
        if r is Some {
            let t = r->Some_0;
            encode_utf8_decode_utf8(t@);
        }
    }
    r
}

} // verus!
