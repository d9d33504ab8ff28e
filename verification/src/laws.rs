//! What holds of every rewrite: what is kept, what changes, and that a second
//! rewrite changes nothing more.

use crate::error::FormatError;
use crate::pattern::renamed_text;
use crate::record::{lemma_bytes_then_parse, lemma_parse_then_bytes, parse_record, Record};
use crate::rewriter::{record_count, rewrite_pool, rewritten, HEADER_LEN};
use crate::tag::{fixed_length, TAG_UTF8};
use crate::text::{
    decoded, lemma_no_match_left, lemma_replace_all_without_match, never_overlap, occurs_in,
    replace_all,
};
use vstd::prelude::*;
use vstd::utf8::{
    decode_utf8, decode_utf8_encode_utf8, encode_utf8, encode_utf8_decode_utf8,
    encode_utf8_valid_utf8, valid_utf8,
};

verus! {

/// No text among the first `n` records of `s` holds `pat`.
pub open spec fn pool_free_of(s: Seq<u8>, n: nat, pat: Seq<char>) -> bool
    decreases n,
{
    n == 0 || match parse_record(s) {
        Err(_) => true,
        Ok((rec, rest)) => record_free_of(rec, pat) && pool_free_of(rest, (n - 1) as nat, pat),
    }
}

/// The record is no text that holds `pat`.
pub open spec fn record_free_of(rec: Record, pat: Seq<char>) -> bool {
    match rec {
        Record::Utf8 { text } => !occurs_in(decoded(text), pat),
        Record::Fixed { .. } => true,
    }
}

/// No text in the constant pool of the class file `bytes` holds `pat`.
pub open spec fn free_of(bytes: Seq<u8>, pat: Seq<char>) -> bool {
    bytes.len() >= HEADER_LEN ==> pool_free_of(
        bytes.skip(HEADER_LEN as int),
        record_count(bytes),
        pat,
    )
}

/// A rewritten class file starts with the ten bytes of the one it was made
/// from: magic number, versions and pool count are never touched.
pub proof fn lemma_header_kept(bytes: Seq<u8>, from: Seq<char>, to: Seq<char>)
    requires
        rewritten(bytes, from, to) is Ok,
    ensures
        bytes.len() >= HEADER_LEN,
        rewritten(bytes, from, to)->Ok_0.len() >= HEADER_LEN,
        rewritten(bytes, from, to)->Ok_0.take(HEADER_LEN as int) == bytes.take(HEADER_LEN as int),
        record_count(rewritten(bytes, from, to)->Ok_0) == record_count(bytes),
{
    let out = rewritten(bytes, from, to)->Ok_0;
    assert(out.take(HEADER_LEN as int) =~= bytes.take(HEADER_LEN as int));
    assert(out[8] == out.take(HEADER_LEN as int)[8]);
    assert(out[9] == out.take(HEADER_LEN as int)[9]);
}

/// A record that is no text comes out as it went in: its tag, its size and
/// its bytes are the same, whatever the pattern.
pub proof fn lemma_fixed_record_kept(s: Seq<u8>, from: Seq<char>, to: Seq<char>)
    requires
        s.len() >= 1,
        s[0] != TAG_UTF8,
        s.len() >= 1 + fixed_length(s[0]),
    ensures
        rewrite_pool(s, 1, from, to) == Ok::<(Seq<u8>, Seq<u8>), FormatError>(
            (s.take(1 + fixed_length(s[0]) as int), s.skip(1 + fixed_length(s[0]) as int)),
        ),
{
    let n = 1 + fixed_length(s[0]) as int;
    let (rec, rest) = parse_record(s)->Ok_0;
    assert(rewrite_pool(rest, 0, from, to) == Ok::<(Seq<u8>, Seq<u8>), FormatError>(
        (Seq::empty(), rest),
    ));
    assert(rec.to_bytes() + Seq::<u8>::empty() =~= s.take(n));
}

/// A text record whose bytes are valid UTF-8 and whose text does not hold
/// `from` comes out byte for byte, length field included.
pub proof fn lemma_text_record_without_match_kept(s: Seq<u8>, from: Seq<char>, to: Seq<char>)
    requires
        parse_record(s) is Ok,
        parse_record(s)->Ok_0.0 is Utf8,
        valid_utf8(parse_record(s)->Ok_0.0->text),
        !occurs_in(decode_utf8(parse_record(s)->Ok_0.0->text), from),
    ensures
        parse_record(s)->Ok_0.0.renamed(from, to) == Ok::<Record, FormatError>(
            parse_record(s)->Ok_0.0,
        ),
        rewrite_pool(s, 1, from, to) == Ok::<(Seq<u8>, Seq<u8>), FormatError>(
            (s.take(s.len() - parse_record(s)->Ok_0.1.len()), parse_record(s)->Ok_0.1),
        ),
{
    let (rec, rest) = parse_record(s)->Ok_0;
    let text = rec->text;
    lemma_parse_then_bytes(s);
    lemma_replace_all_without_match(decode_utf8(text), from, to);
    decode_utf8_encode_utf8(text);
    assert(renamed_text(decoded(text), from, to) == Ok::<Seq<u8>, FormatError>(text));
    assert(rewrite_pool(rest, 0, from, to) == Ok::<(Seq<u8>, Seq<u8>), FormatError>(
        (Seq::empty(), rest),
    ));
    assert(rec.to_bytes() + Seq::<u8>::empty() =~= s.take(s.len() - rest.len()));
}

/// A record that the rename gives back is well formed where the one it was
/// made from is.
pub proof fn lemma_renamed_wf(rec: Record, from: Seq<char>, to: Seq<char>)
    requires
        rec.wf(),
        rec.renamed(from, to) is Ok,
    ensures
        rec.renamed(from, to)->Ok_0.wf(),
{
}

/// A renamed record in which `from` no longer stands is kept by a second
/// rename.
pub proof fn lemma_renamed_record_settled(rec: Record, from: Seq<char>, to: Seq<char>)
    requires
        rec.renamed(from, to) is Ok,
        record_free_of(rec.renamed(from, to)->Ok_0, from),
    ensures
        rec.renamed(from, to)->Ok_0.renamed(from, to) == rec.renamed(from, to),
{
    match rec {
        Record::Utf8 { text } => {
            let chars = replace_all(decoded(text), from, to);
            let bytes = encode_utf8(chars);
            encode_utf8_valid_utf8(chars);
            encode_utf8_decode_utf8(chars);
            assert(decoded(bytes) == chars);
            lemma_replace_all_without_match(chars, from, to);
        },
        Record::Fixed { .. } => {},
    }
}

/// A rewritten pool in which `from` no longer stands is kept by a second
/// rewrite.
pub proof fn lemma_rewritten_pool_settled(s: Seq<u8>, n: nat, from: Seq<char>, to: Seq<char>)
    requires
        rewrite_pool(s, n, from, to) is Ok,
        pool_free_of(
            rewrite_pool(s, n, from, to)->Ok_0.0 + rewrite_pool(s, n, from, to)->Ok_0.1,
            n,
            from,
        ),
    ensures
        rewrite_pool(
            rewrite_pool(s, n, from, to)->Ok_0.0 + rewrite_pool(s, n, from, to)->Ok_0.1,
            n,
            from,
            to,
        ) == rewrite_pool(s, n, from, to),
    decreases n,
{
    let (pool, tail) = rewrite_pool(s, n, from, to)->Ok_0;
    if n == 0 {
        assert(pool + tail =~= tail);
    } else {
        let (rec, rest) = parse_record(s)->Ok_0;
        let renamed = rec.renamed(from, to)->Ok_0;
        let (inner, inner_tail) = rewrite_pool(rest, (n - 1) as nat, from, to)->Ok_0;
        assert(pool == renamed.to_bytes() + inner);
        assert(inner_tail == tail);
        lemma_parse_then_bytes(s);
        lemma_renamed_wf(rec, from, to);
        lemma_bytes_then_parse(renamed, inner + tail);
        assert(pool + tail =~= renamed.to_bytes() + (inner + tail));
        lemma_renamed_record_settled(rec, from, to);
        lemma_rewritten_pool_settled(rest, (n - 1) as nat, from, to);
    }
}

/// Rewriting twice is rewriting once: where the first rewrite has left no
/// text that holds `from`, a second rewrite with the same pattern gives the
/// same bytes again.
pub proof fn lemma_rewrite_idempotent(bytes: Seq<u8>, from: Seq<char>, to: Seq<char>)
    requires
        rewritten(bytes, from, to) is Ok,
        free_of(rewritten(bytes, from, to)->Ok_0, from),
    ensures
        rewritten(rewritten(bytes, from, to)->Ok_0, from, to) == rewritten(bytes, from, to),
{
    let out = rewritten(bytes, from, to)->Ok_0;
    let start = bytes.skip(HEADER_LEN as int);
    let n = record_count(bytes);
    let (pool, tail) = rewrite_pool(start, n, from, to)->Ok_0;
    lemma_header_kept(bytes, from, to);
    assert(out == bytes.take(HEADER_LEN as int) + pool + tail);
    assert(out.skip(HEADER_LEN as int) =~= pool + tail);
    lemma_rewritten_pool_settled(start, n, from, to);
    assert(out.take(HEADER_LEN as int) + pool + tail =~= out);
}

/// Where `from` and `to` never overlap, no record that the rename gives
/// back holds `from`.
pub proof fn lemma_renamed_record_free(rec: Record, from: Seq<char>, to: Seq<char>)
    requires
        from.len() > 0,
        never_overlap(from, to),
        rec.renamed(from, to) is Ok,
    ensures
        record_free_of(rec.renamed(from, to)->Ok_0, from),
{
    match rec {
        Record::Utf8 { text } => {
            let chars = replace_all(decoded(text), from, to);
            encode_utf8_valid_utf8(chars);
            encode_utf8_decode_utf8(chars);
            lemma_no_match_left(decoded(text), from, to);
        },
        Record::Fixed { .. } => {},
    }
}

/// Where `from` and `to` never overlap, no text of a rewritten pool holds
/// `from`.
pub proof fn lemma_rewritten_pool_free(s: Seq<u8>, n: nat, from: Seq<char>, to: Seq<char>)
    requires
        from.len() > 0,
        never_overlap(from, to),
        rewrite_pool(s, n, from, to) is Ok,
    ensures
        pool_free_of(
            rewrite_pool(s, n, from, to)->Ok_0.0 + rewrite_pool(s, n, from, to)->Ok_0.1,
            n,
            from,
        ),
    decreases n,
{
    let (pool, tail) = rewrite_pool(s, n, from, to)->Ok_0;
    if n > 0 {
        let (rec, rest) = parse_record(s)->Ok_0;
        let renamed = rec.renamed(from, to)->Ok_0;
        let (inner, inner_tail) = rewrite_pool(rest, (n - 1) as nat, from, to)->Ok_0;
        lemma_parse_then_bytes(s);
        lemma_renamed_wf(rec, from, to);
        lemma_bytes_then_parse(renamed, inner + tail);
        assert(pool + tail =~= renamed.to_bytes() + (inner + tail));
        lemma_renamed_record_free(rec, from, to);
        lemma_rewritten_pool_free(rest, (n - 1) as nat, from, to);
    }
}

/// Where the source prefix is not empty and never overlaps the target
/// prefix, a rewritten class file holds the source prefix in none of its
/// texts, and a second rewrite gives the same bytes again.
pub proof fn lemma_rewrite_settles(bytes: Seq<u8>, from: Seq<char>, to: Seq<char>)
    requires
        from.len() > 0,
        never_overlap(from, to),
        rewritten(bytes, from, to) is Ok,
    ensures
        free_of(rewritten(bytes, from, to)->Ok_0, from),
        rewritten(rewritten(bytes, from, to)->Ok_0, from, to) == rewritten(bytes, from, to),
{
    let out = rewritten(bytes, from, to)->Ok_0;
    let start = bytes.skip(HEADER_LEN as int);
    let n = record_count(bytes);
    let (pool, tail) = rewrite_pool(start, n, from, to)->Ok_0;
    lemma_header_kept(bytes, from, to);
    assert(out.skip(HEADER_LEN as int) =~= pool + tail);
    lemma_rewritten_pool_free(start, n, from, to);
    lemma_rewrite_idempotent(bytes, from, to);
}

/// The first `n` records of `s` in order, and what follows them.
pub open spec fn parse_pool(s: Seq<u8>, n: nat) -> Result<(Seq<Record>, Seq<u8>), FormatError>
    decreases n,
{
    if n == 0 {
        Ok((Seq::empty(), s))
    } else {
        match parse_record(s) {
            Err(e) => Err(e),
            Ok((rec, rest)) => match parse_pool(rest, (n - 1) as nat) {
                Err(e) => Err(e),
                Ok((records, tail)) => Ok((seq![rec] + records, tail)),
            },
        }
    }
}

/// Every text among the first `n` records of `s` is valid UTF-8.
pub open spec fn pool_texts_valid(s: Seq<u8>, n: nat) -> bool
    decreases n,
{
    n == 0 || match parse_record(s) {
        Err(_) => true,
        Ok((rec, rest)) => (rec is Utf8 ==> valid_utf8(rec->text)) && pool_texts_valid(
            rest,
            (n - 1) as nat,
        ),
    }
}

/// A pool that parses has as many records as were asked for.
pub proof fn lemma_parse_pool_len(s: Seq<u8>, n: nat)
    requires
        parse_pool(s, n) is Ok,
    ensures
        parse_pool(s, n)->Ok_0.0.len() == n,
    decreases n,
{
    if n > 0 {
        lemma_parse_pool_len(parse_record(s)->Ok_0.1, (n - 1) as nat);
    }
}

/// The records of a rewritten pool line up with those it was made from: the
/// pool parses again, into as many records, each the renamed form of the
/// record in its place, and the same bytes follow it. So a text that grows or
/// shrinks moves the records behind it and changes none of them.
pub proof fn lemma_rewritten_pool_parses(s: Seq<u8>, n: nat, from: Seq<char>, to: Seq<char>)
    requires
        rewrite_pool(s, n, from, to) is Ok,
    ensures
        parse_pool(s, n) is Ok,
        parse_pool(
            rewrite_pool(s, n, from, to)->Ok_0.0 + rewrite_pool(s, n, from, to)->Ok_0.1,
            n,
        ) is Ok,
        parse_pool(s, n)->Ok_0.1 == rewrite_pool(s, n, from, to)->Ok_0.1,
        parse_pool(
            rewrite_pool(s, n, from, to)->Ok_0.0 + rewrite_pool(s, n, from, to)->Ok_0.1,
            n,
        )->Ok_0.1 == rewrite_pool(s, n, from, to)->Ok_0.1,
        parse_pool(s, n)->Ok_0.0.len() == n,
        parse_pool(
            rewrite_pool(s, n, from, to)->Ok_0.0 + rewrite_pool(s, n, from, to)->Ok_0.1,
            n,
        )->Ok_0.0.len() == n,
        forall|i: int|
            0 <= i < n ==> (#[trigger] parse_pool(s, n)->Ok_0.0[i]).renamed(from, to) == Ok::<
                Record,
                FormatError,
            >(
                parse_pool(
                    rewrite_pool(s, n, from, to)->Ok_0.0 + rewrite_pool(s, n, from, to)->Ok_0.1,
                    n,
                )->Ok_0.0[i],
            ),
    decreases n,
{
    let (pool, tail) = rewrite_pool(s, n, from, to)->Ok_0;
    if n == 0 {
        assert(pool + tail =~= tail);
    } else {
        let (rec, rest) = parse_record(s)->Ok_0;
        let renamed = rec.renamed(from, to)->Ok_0;
        let (inner, inner_tail) = rewrite_pool(rest, (n - 1) as nat, from, to)->Ok_0;
        lemma_parse_then_bytes(s);
        lemma_renamed_wf(rec, from, to);
        lemma_bytes_then_parse(renamed, inner + tail);
        assert(pool + tail =~= renamed.to_bytes() + (inner + tail));
        lemma_rewritten_pool_parses(rest, (n - 1) as nat, from, to);
        let before = parse_pool(s, n)->Ok_0.0;
        let behind = parse_pool(pool + tail, n)->Ok_0.0;
        let before_rest = parse_pool(rest, (n - 1) as nat)->Ok_0.0;
        let behind_rest = parse_pool(inner + tail, (n - 1) as nat)->Ok_0.0;
        assert(before == seq![rec] + before_rest);
        assert(behind == seq![renamed] + behind_rest);
        assert forall|i: int| 0 <= i < n implies (#[trigger] before[i]).renamed(from, to) == Ok::<
            Record,
            FormatError,
        >(behind[i]) by {
            if i > 0 {
                assert(before[i] == before_rest[i - 1]);
                assert(behind[i] == behind_rest[i - 1]);
            }
        }
    }
}

/// A pool whose texts are valid UTF-8 and hold no `from` comes out byte for
/// byte, unless it ends early.
pub proof fn lemma_pool_without_match_kept(s: Seq<u8>, n: nat, from: Seq<char>, to: Seq<char>)
    requires
        pool_texts_valid(s, n),
        pool_free_of(s, n, from),
    ensures
        match rewrite_pool(s, n, from, to) {
            Ok((pool, tail)) => pool + tail == s,
            Err(e) => e == FormatError::Truncated,
        },
    decreases n,
{
    if n == 0 {
        assert(Seq::<u8>::empty() + s =~= s);
    } else if let Ok((rec, rest)) = parse_record(s) {
        lemma_parse_then_bytes(s);
        match rec {
            Record::Utf8 { text } => {
                lemma_replace_all_without_match(decode_utf8(text), from, to);
                decode_utf8_encode_utf8(text);
                assert(rec.renamed(from, to) == Ok::<Record, FormatError>(rec));
            },
            Record::Fixed { .. } => {},
        }
        lemma_pool_without_match_kept(rest, (n - 1) as nat, from, to);
        if let Ok((inner, tail)) = rewrite_pool(rest, (n - 1) as nat, from, to) {
            assert((rec.to_bytes() + inner) + tail =~= rec.to_bytes() + (inner + tail));
        }
    }
}

/// A class file whose texts are valid UTF-8 and hold no `from` comes out
/// byte for byte, unless it ends early.
pub proof fn lemma_rewrite_without_match_kept(bytes: Seq<u8>, from: Seq<char>, to: Seq<char>)
    requires
        bytes.len() >= HEADER_LEN ==> pool_texts_valid(
            bytes.skip(HEADER_LEN as int),
            record_count(bytes),
        ),
        free_of(bytes, from),
    ensures
        rewritten(bytes, from, to) == Ok::<Seq<u8>, FormatError>(bytes) || rewritten(
            bytes,
            from,
            to,
        ) == Err::<Seq<u8>, FormatError>(FormatError::Truncated),
{
    if bytes.len() >= HEADER_LEN {
        let start = bytes.skip(HEADER_LEN as int);
        lemma_pool_without_match_kept(start, record_count(bytes), from, to);
        if let Ok((pool, tail)) = rewrite_pool(start, record_count(bytes), from, to) {
            assert(bytes.take(HEADER_LEN as int) + pool + tail =~= bytes.take(HEADER_LEN as int)
                + (pool + tail));
            assert(bytes.take(HEADER_LEN as int) + start =~= bytes);
        }
    }
}

} // verus!
