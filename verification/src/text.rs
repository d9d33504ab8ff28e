//! Literal matching and replacement in text, and the decoding of the bytes
//! of a text record.

use vstd::prelude::*;
use vstd::utf8::{decode_utf8, valid_utf8};

verus! {

/// `pat` stands in `text` at index `i`.
pub open spec fn occurs_at(text: Seq<char>, pat: Seq<char>, i: int) -> bool {
    &&& 0 <= i
    &&& i + pat.len() <= text.len()
    &&& text.subrange(i, i + pat.len()) == pat
}

/// `pat` stands somewhere in `text`. The empty pattern stands in every text.
pub open spec fn occurs_in(text: Seq<char>, pat: Seq<char>) -> bool {
    exists|i: int| occurs_at(text, pat, i)
}

/// `text` with every match of `from` replaced by `to`. Matches are found from
/// left to right and do not overlap: the search goes on behind the match that
/// was just replaced. The empty pattern matches before every character and
/// at the end.
pub open spec fn replace_all(text: Seq<char>, from: Seq<char>, to: Seq<char>) -> Seq<char>
    decreases text.len(),
{
    if text.len() == 0 {
        if from.len() == 0 {
            to
        } else {
            text
        }
    } else if from.len() == 0 {
        to + text.take(1) + replace_all(text.skip(1), from, to)
    } else if from.is_prefix_of(text) {
        to + replace_all(text.skip(from.len() as int), from, to)
    } else {
        text.take(1) + replace_all(text.skip(1), from, to)
    }
}

/// The text that a lossy decoding makes of bytes that are not valid UTF-8:
/// what can be decoded is, and each invalid sequence becomes one replacement
/// character.
pub uninterp spec fn utf8_lossy(bytes: Seq<u8>) -> Seq<char>;

/// The text of a record whose bytes are `bytes`: their decoding where they
/// are valid UTF-8, and their lossy decoding otherwise.
pub open spec fn decoded(bytes: Seq<u8>) -> Seq<char> {
    if valid_utf8(bytes) {
        decode_utf8(bytes)
    } else {
        utf8_lossy(bytes)
    }
}

/// `String::from_utf8_lossy`, as an owned `String`. Valid UTF-8 is decoded as
/// it stands, with nothing replaced; of other bytes the result is their
/// lossy decoding, which depends on the bytes alone.
#[verifier::external_body]
pub(crate) fn decode_lossy(bytes: &[u8]) -> (text: String)
    ensures
        text@ == if valid_utf8(bytes@) {
            decode_utf8(bytes@)
        } else {
            utf8_lossy(bytes@)
        },
{
    String::from_utf8_lossy(bytes).into_owned()
}

/// `str::replace` with a string pattern: every match of `from` in `text`,
/// found from left to right without overlap, is replaced by `to`.
#[verifier::external_body]
pub(crate) fn replace_str(text: &str, from: &str, to: &str) -> (replaced: String)
    ensures
        replaced@ == replace_all(text@, from@, to@),
{
    text.replace(from, to)
}

/// `str::strip_prefix` with a string pattern: what follows `prefix` in `text`,
/// or `None` where `text` does not start with `prefix`.
#[verifier::external_body]
pub(crate) fn strip_prefix<'a>(text: &'a str, prefix: &str) -> (rest: Option<&'a str>)
    ensures
        match rest {
            Some(tail) => text@ == prefix@ + tail@,
            None => !prefix@.is_prefix_of(text@),
        },
{
    text.strip_prefix(prefix)
}

/// `str::ends_with` with a string pattern: whether `suffix` stands at the end
/// of `text`.
#[verifier::external_body]
pub(crate) fn ends_with(text: &str, suffix: &str) -> (found: bool)
    ensures
        found == suffix@.is_suffix_of(text@),
{
    text.ends_with(suffix)
}

/// What stands between the matches of `pat` in `text`, in order: the text
/// up to the first match, the text between one match and the next, and the
/// text behind the last. Matches are found as [`replace_all`] finds them. A
/// text without a match, or an empty pattern, gives the text as its one
/// piece.
pub open spec fn pieces(text: Seq<char>, pat: Seq<char>) -> Seq<Seq<char>>
    decreases text.len(),
{
    if pat.len() == 0 || text.len() == 0 {
        seq![text]
    } else if pat.is_prefix_of(text) {
        seq![Seq::empty()] + pieces(text.skip(pat.len() as int), pat)
    } else {
        let rest = pieces(text.skip(1), pat);
        seq![text.take(1) + rest[0]] + rest.skip(1)
    }
}

/// `parts` in a row, with `sep` between each two.
pub open spec fn joined(parts: Seq<Seq<char>>, sep: Seq<char>) -> Seq<char>
    decreases parts.len(),
{
    if parts.len() == 0 {
        Seq::empty()
    } else if parts.len() == 1 {
        parts[0]
    } else {
        parts[0] + sep + joined(parts.skip(1), sep)
    }
}

/// Where the separator behind `parts[i]` starts in `joined(parts, sep)`.
pub open spec fn separator_index(parts: Seq<Seq<char>>, sep: Seq<char>, i: int) -> int
    decreases i,
{
    if i <= 0 || parts.len() == 0 {
        parts[0].len() as int
    } else {
        parts[0].len() + sep.len() + separator_index(parts.skip(1), sep, i - 1)
    }
}

/// The number of matches of `pat` that [`replace_all`] finds in `text`.
pub open spec fn match_count(text: Seq<char>, pat: Seq<char>) -> nat {
    (pieces(text, pat).len() - 1) as nat
}

/// A text always has a first piece.
pub proof fn lemma_pieces_len(text: Seq<char>, pat: Seq<char>)
    ensures
        pieces(text, pat).len() >= 1,
    decreases text.len(),
{
    if pat.len() == 0 || text.len() == 0 {
    } else if pat.is_prefix_of(text) {
        lemma_pieces_len(text.skip(pat.len() as int), pat);
    } else {
        lemma_pieces_len(text.skip(1), pat);
    }
}

/// Putting `head` before the first of `parts` puts it before their join.
proof fn lemma_joined_prepend(head: Seq<char>, parts: Seq<Seq<char>>, sep: Seq<char>)
    requires
        parts.len() >= 1,
    ensures
        joined(seq![head + parts[0]] + parts.skip(1), sep) == head + joined(parts, sep),
{
    let longer = seq![head + parts[0]] + parts.skip(1);
    assert(longer.len() == parts.len());
    assert(longer[0] == head + parts[0]);
    if parts.len() == 1 {
    } else {
        assert(longer.skip(1) =~= parts.skip(1));
        assert((head + parts[0]) + sep + joined(parts.skip(1), sep) =~= head + (parts[0] + sep
            + joined(parts.skip(1), sep)));
    }
}

/// The pieces of a text, joined by the pattern, are the text.
pub proof fn lemma_pieces_join_back(text: Seq<char>, pat: Seq<char>)
    requires
        pat.len() > 0,
    ensures
        joined(pieces(text, pat), pat) == text,
    decreases text.len(),
{
    if text.len() == 0 {
    } else if pat.is_prefix_of(text) {
        let rest = text.skip(pat.len() as int);
        let tail = pieces(rest, pat);
        lemma_pieces_len(rest, pat);
        lemma_pieces_join_back(rest, pat);
        let all = seq![Seq::<char>::empty()] + tail;
        assert(all.skip(1) =~= tail);
        assert(all[0] == Seq::<char>::empty());
        assert(Seq::<char>::empty() + pat + rest =~= text);
    } else {
        let rest = text.skip(1);
        lemma_pieces_len(rest, pat);
        lemma_pieces_join_back(rest, pat);
        lemma_joined_prepend(text.take(1), pieces(rest, pat), pat);
        assert(text.take(1) + rest =~= text);
    }
}

/// Replacing every match is joining the pieces by the replacement: the text
/// between the matches stays, in order, and each match gives way to `to`.
pub proof fn lemma_replace_all_joins_pieces(text: Seq<char>, from: Seq<char>, to: Seq<char>)
    requires
        from.len() > 0,
    ensures
        replace_all(text, from, to) == joined(pieces(text, from), to),
    decreases text.len(),
{
    if text.len() == 0 {
    } else if from.is_prefix_of(text) {
        let rest = text.skip(from.len() as int);
        let tail = pieces(rest, from);
        lemma_pieces_len(rest, from);
        lemma_replace_all_joins_pieces(rest, from, to);
        let all = seq![Seq::<char>::empty()] + tail;
        assert(all.skip(1) =~= tail);
        assert(all[0] == Seq::<char>::empty());
        assert(Seq::<char>::empty() + to + joined(tail, to) =~= to + joined(tail, to));
    } else {
        let rest = text.skip(1);
        lemma_pieces_len(rest, from);
        lemma_replace_all_joins_pieces(rest, from, to);
        lemma_joined_prepend(text.take(1), pieces(rest, from), to);
    }
}

/// In a join, the separator stands behind each part but the last.
pub proof fn lemma_separator_occurs(parts: Seq<Seq<char>>, sep: Seq<char>, i: int)
    requires
        0 <= i < parts.len() - 1,
    ensures
        occurs_at(joined(parts, sep), sep, separator_index(parts, sep, i)),
    decreases i,
{
    let whole = joined(parts, sep);
    let rest = joined(parts.skip(1), sep);
    assert(whole == parts[0] + sep + rest);
    if i == 0 {
        let at = parts[0].len() as int;
        assert(whole.subrange(at, at + sep.len()) =~= sep);
    } else {
        lemma_separator_occurs(parts.skip(1), sep, i - 1);
        let inner = separator_index(parts.skip(1), sep, i - 1);
        let shift = parts[0].len() + sep.len();
        assert(whole.subrange(shift + inner, shift + inner + sep.len()) =~= rest.subrange(
            inner,
            inner + sep.len(),
        ));
    }
}

/// The matches of `from` in a text and the replacements in the rewritten
/// text stand behind the same pieces: the match behind piece `i` is in the
/// text, and `to` stands behind the same piece in the result.
pub proof fn lemma_match_replaced_in_place(
    text: Seq<char>,
    from: Seq<char>,
    to: Seq<char>,
    i: int,
)
    requires
        from.len() > 0,
        0 <= i < match_count(text, from),
    ensures
        occurs_at(text, from, separator_index(pieces(text, from), from, i)),
        occurs_at(
            replace_all(text, from, to),
            to,
            separator_index(pieces(text, from), to, i),
        ),
{
    lemma_pieces_join_back(text, from);
    lemma_replace_all_joins_pieces(text, from, to);
    lemma_separator_occurs(pieces(text, from), from, i);
    lemma_separator_occurs(pieces(text, from), to, i);
}

/// No piece of a text holds the pattern.
pub proof fn lemma_pieces_hold_no_match(text: Seq<char>, pat: Seq<char>, i: int)
    requires
        pat.len() > 0,
        0 <= i < pieces(text, pat).len(),
    ensures
        !occurs_in(pieces(text, pat)[i], pat),
    decreases text.len(),
{
    if text.len() == 0 {
        assert forall|k: int| !occurs_at(text, pat, k) by {}
    } else if pat.is_prefix_of(text) {
        let rest = text.skip(pat.len() as int);
        if i == 0 {
            assert forall|k: int| !occurs_at(Seq::<char>::empty(), pat, k) by {}
        } else {
            lemma_pieces_hold_no_match(rest, pat, i - 1);
        }
    } else {
        let rest = text.skip(1);
        let tail = pieces(rest, pat);
        lemma_pieces_len(rest, pat);
        if i == 0 {
            lemma_pieces_hold_no_match(rest, pat, 0);
            let first = text.take(1) + tail[0];
            assert forall|k: int| !occurs_at(first, pat, k) by {
                if occurs_at(first, pat, k) {
                    if k == 0 {
                        lemma_first_piece_is_prefix(rest, pat);
                        assert(first.is_prefix_of(text)) by {
                            assert(text.take(1) + rest =~= text);
                            assert(first =~= text.subrange(0, first.len() as int));
                        }
                        assert(pat =~= text.subrange(0, pat.len() as int));
                        assert(pat.is_prefix_of(text));
                    } else {
                        assert(tail[0].subrange(k - 1, k - 1 + pat.len()) =~= first.subrange(
                            k,
                            k + pat.len(),
                        ));
                        assert(occurs_at(tail[0], pat, k - 1));
                    }
                }
            }
        } else {
            lemma_pieces_hold_no_match(rest, pat, i);
            assert((seq![text.take(1) + tail[0]] + tail.skip(1))[i] == tail[i]);
        }
    }
}

/// The first piece of a text stands at its start.
proof fn lemma_first_piece_is_prefix(text: Seq<char>, pat: Seq<char>)
    requires
        pat.len() > 0,
    ensures
        pieces(text, pat).len() >= 1,
        pieces(text, pat)[0].is_prefix_of(text),
    decreases text.len(),
{
    if text.len() == 0 {
    } else if pat.is_prefix_of(text) {
        lemma_pieces_len(text.skip(pat.len() as int), pat);
    } else {
        let rest = text.skip(1);
        lemma_first_piece_is_prefix(rest, pat);
        let first = text.take(1) + pieces(rest, pat)[0];
        assert(first =~= text.subrange(0, first.len() as int));
    }
}

/// `a` and `b` never share a character: wherever both stand in one text,
/// one ends before the other starts. Two such patterns are different, neither
/// holds the other, and no end of one is a start of the other.
pub open spec fn never_overlap(a: Seq<char>, b: Seq<char>) -> bool {
    forall|w: Seq<char>, i: int, j: int|
        #![trigger occurs_at(w, a, i), occurs_at(w, b, j)]
        occurs_at(w, a, i) && occurs_at(w, b, j) ==> i + a.len() <= j || j + b.len() <= i
}

/// The stretch of `n` characters from `k` on and the stretch of `m`
/// characters from `s` on are not apart.
pub open spec fn touches(k: int, n: nat, s: int, m: nat) -> bool {
    !(k + n <= s || s + m <= k)
}

/// A pattern that stands in a join stands within one of the parts, or is
/// not apart from one of the separators.
pub proof fn lemma_occurrence_in_join(
    parts: Seq<Seq<char>>,
    sep: Seq<char>,
    pat: Seq<char>,
    k: int,
)
    requires
        parts.len() >= 1,
        occurs_at(joined(parts, sep), pat, k),
    ensures
        (exists|i: int| 0 <= i < parts.len() && occurs_in(#[trigger] parts[i], pat)) || (exists|
            i: int,
        |
            0 <= i < parts.len() - 1 && touches(
                k,
                pat.len(),
                #[trigger] separator_index(parts, sep, i),
                sep.len(),
            )),
    decreases parts.len(),
{
    let whole = joined(parts, sep);
    if parts.len() == 1 {
        assert(occurs_at(parts[0], pat, k));
        assert(occurs_in(parts[0], pat));
    } else {
        let first = parts[0].len() as int;
        let later = parts.skip(1);
        let rest = joined(later, sep);
        assert(whole == parts[0] + sep + rest);
        if k + pat.len() <= first {
            assert(parts[0].subrange(k, k + pat.len()) =~= whole.subrange(k, k + pat.len()));
            assert(occurs_at(parts[0], pat, k));
            assert(occurs_in(parts[0], pat));
        } else if first + sep.len() <= k {
            let shift = first + sep.len();
            assert(rest.subrange(k - shift, k - shift + pat.len()) =~= whole.subrange(
                k,
                k + pat.len(),
            ));
            assert(occurs_at(rest, pat, k - shift));
            lemma_occurrence_in_join(later, sep, pat, k - shift);
            if exists|i: int| 0 <= i < later.len() && occurs_in(#[trigger] later[i], pat) {
                let i = choose|i: int| 0 <= i < later.len() && occurs_in(#[trigger] later[i], pat);
                assert(parts[i + 1] == later[i]);
                assert(occurs_in(parts[i + 1], pat));
            } else {
                let i = choose|i: int|
                    0 <= i < later.len() - 1 && touches(
                        k - shift,
                        pat.len(),
                        #[trigger] separator_index(later, sep, i),
                        sep.len(),
                    );
                assert(separator_index(parts, sep, i + 1) == shift + separator_index(
                    later,
                    sep,
                    i,
                ));
                assert(touches(k, pat.len(), separator_index(parts, sep, i + 1), sep.len()));
            }
        } else {
            assert(touches(k, pat.len(), separator_index(parts, sep, 0), sep.len()));
        }
    }
}

/// Where `from` and `to` never overlap, the rewritten text holds no `from`
/// any more.
pub proof fn lemma_no_match_left(text: Seq<char>, from: Seq<char>, to: Seq<char>)
    requires
        from.len() > 0,
        never_overlap(from, to),
    ensures
        !occurs_in(replace_all(text, from, to), from),
{
    let parts = pieces(text, from);
    let out = replace_all(text, from, to);
    lemma_pieces_len(text, from);
    lemma_replace_all_joins_pieces(text, from, to);
    assert forall|k: int| !occurs_at(out, from, k) by {
        if occurs_at(out, from, k) {
            lemma_occurrence_in_join(parts, to, from, k);
            if exists|i: int| 0 <= i < parts.len() && occurs_in(#[trigger] parts[i], from) {
                let i = choose|i: int| 0 <= i < parts.len() && occurs_in(#[trigger] parts[i], from);
                lemma_pieces_hold_no_match(text, from, i);
            } else {
                let i = choose|i: int|
                    0 <= i < parts.len() - 1 && touches(
                        k,
                        from.len(),
                        #[trigger] separator_index(parts, to, i),
                        to.len(),
                    );
                lemma_separator_occurs(parts, to, i);
                assert(occurs_at(out, to, separator_index(parts, to, i)));
            }
        }
    }
}

/// A text in which `from` does not stand is left as it is.
pub proof fn lemma_replace_all_without_match(text: Seq<char>, from: Seq<char>, to: Seq<char>)
    requires
        !occurs_in(text, from),
    ensures
        replace_all(text, from, to) == text,
    decreases text.len(),
{
    if from.len() == 0 {
        assert(text.subrange(0, 0) =~= from);
        assert(occurs_at(text, from, 0));
    } else if text.len() == 0 {
    } else if from.is_prefix_of(text) {
        assert(occurs_at(text, from, 0));
    } else {
        let rest = text.skip(1);
        assert forall|i: int| !occurs_at(rest, from, i) by {
            if occurs_at(rest, from, i) {
                assert(text.subrange(i + 1, i + 1 + from.len()) =~= rest.subrange(
                    i,
                    i + from.len(),
                ));
                assert(occurs_at(text, from, i + 1));
            }
        }
        lemma_replace_all_without_match(rest, from, to);
        assert(text.take(1) + rest =~= text);
    }
}

} // verus!
