//! The pair of prefixes that a run renames from and to.

use crate::error::FormatError;
use crate::text::{replace_all, replace_str, strip_prefix};
use vstd::prelude::*;
use vstd::string::StringExecFns;
use vstd::utf8::encode_utf8;

verus! {

/// The longest text, in bytes, that a text record can hold.
pub const MAX_TEXT_LEN: usize = 0xFFFF;

/// A source prefix and the target prefix that takes its place. Both are
/// written with slashes and are matched letter for letter.
#[derive(Clone, Debug, PartialEq, Eq)]
pub struct RenamePattern {
    pub source: String,
    pub target: String,
}

/// `text` with every dot turned into a slash.
pub open spec fn dots_to_slashes(text: Seq<char>) -> Seq<char> {
    Seq::new(
        text.len(),
        |i: int|
            if text[i] == '.' {
                '/'
            } else {
                text[i]
            },
    )
}

/// `name` with `from` at its start replaced by `to`; `name` itself where it
/// does not start with `from`.
pub open spec fn renamed_name(name: Seq<char>, from: Seq<char>, to: Seq<char>) -> Seq<char> {
    if from.is_prefix_of(name) {
        to + name.skip(from.len() as int)
    } else {
        name
    }
}

/// The bytes of `text` after the rename, or `TextTooLong` where they no longer
/// fit a text record.
pub open spec fn renamed_text(text: Seq<char>, from: Seq<char>, to: Seq<char>) -> Result<
    Seq<u8>,
    FormatError,
> {
    let bytes = encode_utf8(replace_all(text, from, to));
    if bytes.len() <= MAX_TEXT_LEN {
        Ok(bytes)
    } else {
        Err(FormatError::TextTooLong)
    }
}

/// Replacing the one-letter pattern `.` by `/` turns every dot into a slash
/// and leaves the rest in place.
pub proof fn lemma_replace_dots(text: Seq<char>)
    ensures
        replace_all(text, seq!['.'], seq!['/']) == dots_to_slashes(text),
    decreases text.len(),
{
    let from = seq!['.'];
    let to = seq!['/'];
    if text.len() == 0 {
        assert(replace_all(text, from, to) =~= dots_to_slashes(text));
    } else {
        let rest = text.skip(1);
        lemma_replace_dots(rest);
        if from.is_prefix_of(text) {
            assert(text.subrange(0, 1)[0] == '.');
            assert(text[0] == '.');
            assert(to + dots_to_slashes(rest) =~= dots_to_slashes(text));
        } else {
            if text[0] == '.' {
                assert(text.subrange(0, 1) =~= from);
            }
            assert(text.take(1) + dots_to_slashes(rest) =~= dots_to_slashes(text));
        }
    }
}

impl RenamePattern {
    /// The pattern that renames `source` to `target`, both taken as written.
    pub fn new(source: String, target: String) -> (pattern: Self)
        ensures
            pattern.source@ == source@,
            pattern.target@ == target@,
    {
        RenamePattern { source, target }
    }

    /// The pattern for two package names written with dots: every dot of
    /// either becomes a slash.
    pub fn from_dotted(source: &str, target: &str) -> (pattern: Self)
        ensures
            pattern.source@ == dots_to_slashes(source@),
            pattern.target@ == dots_to_slashes(target@),
    {
        proof {
            reveal_strlit(".");
            reveal_strlit("/");
            assert("."@ =~= seq!['.']);
            assert("/"@ =~= seq!['/']);
            lemma_replace_dots(source@);
            lemma_replace_dots(target@);
        }
        RenamePattern {
            source: replace_str(source, ".", "/"),
            target: replace_str(target, ".", "/"),
        }
    }

    /// Replaces every match of the source prefix in `text` by the target
    /// prefix.
    pub fn apply(&self, text: &str) -> (replaced: String)
        ensures
            replaced@ == replace_all(text@, self.source@, self.target@),
    {
        replace_str(text, self.source.as_str(), self.target.as_str())
    }

    /// The text of a record after the rename, checked against the size that
    /// a record can hold.
    pub fn rename_text(&self, text: &str) -> (r: Result<String, FormatError>)
        ensures
            match r {
                Ok(replaced) => {
                    &&& replaced@ == replace_all(text@, self.source@, self.target@)
                    &&& renamed_text(text@, self.source@, self.target@) == Ok::<
                        Seq<u8>,
                        FormatError,
                    >(encode_utf8(replaced@))
                },
                Err(e) => renamed_text(text@, self.source@, self.target@) == Err::<
                    Seq<u8>,
                    FormatError,
                >(e),
            },
    {
        let replaced = self.apply(text);
        if replaced.as_str().as_bytes().len() <= MAX_TEXT_LEN {
            Ok(replaced)
        } else {
            Err(FormatError::TextTooLong)
        }
    }

    /// The name under which an entry is stored after the rename: a name that
    /// starts with the source prefix has that prefix replaced, once; every
    /// other name stays, also where the source prefix stands further in.
    pub fn rename_entry(&self, name: &str) -> (renamed: String)
        ensures
            renamed@ == renamed_name(name@, self.source@, self.target@),
            !self.source@.is_prefix_of(name@) ==> renamed@ == name@,
    {
        match strip_prefix(name, self.source.as_str()) {
            Some(tail) => {
                proof {
                    assert(self.source@.is_prefix_of(name@)) by {
                        assert(name@.subrange(0, self.source@.len() as int) =~= self.source@);
                    }
                    assert(name@.skip(self.source@.len() as int) =~= tail@);
                }
                self.target.clone().concat(tail)
            },
            None => String::from_str(name),
        }
    }
}

} // verus!
