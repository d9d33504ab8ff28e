//! The entries of an archive, and what the rename makes of each.

use crate::error::FormatError;
use crate::pattern::{renamed_name, RenamePattern};
use crate::rewriter::{rewrite, rewritten};
use crate::text::ends_with;
use vstd::prelude::*;

verus! {

/// How the content of an entry is stored in the archive.
#[derive(Clone, Copy, Debug, PartialEq, Eq, Structural)]
pub enum CompressionMethod {
    /// As it is.
    Stored,
    /// Deflated.
    Deflated,
    /// Any other method, by its number in the archive format.
    Other(u16),
}

impl CompressionMethod {
    /// The method under which an entry is written again: the one it came
    /// with where that is `Stored` or `Deflated`, and `Deflated` otherwise.
    pub open spec fn spec_for_output(self) -> CompressionMethod {
        match self {
            CompressionMethod::Other(_) => CompressionMethod::Deflated,
            kept => kept,
        }
    }

    /// See [`CompressionMethod::spec_for_output`].
    #[verifier::when_used_as_spec(spec_for_output)]
    pub fn for_output(self) -> (method: CompressionMethod)
        ensures
            method == self.spec_for_output(),
    {
        match self {
            CompressionMethod::Other(_) => CompressionMethod::Deflated,
            kept => kept,
        }
    }
}

/// An entry as a value.
pub struct Entry {
    pub name: Seq<char>,
    pub content: Seq<u8>,
    pub method: CompressionMethod,
}

/// One entry of an archive: its path inside the archive, its content in full
/// and the method it is stored with.
#[derive(Clone, Debug, PartialEq, Eq)]
pub struct ArchiveEntry {
    pub name: String,
    pub content: Vec<u8>,
    pub method: CompressionMethod,
}

impl View for ArchiveEntry {
    type V = Entry;

    open spec fn view(&self) -> Entry {
        Entry { name: self.name@, content: self.content@, method: self.method }
    }
}

/// An entry that could not be rewritten, by its place in the archive.
#[derive(Clone, Copy, Debug, PartialEq, Eq, Structural)]
pub struct TranscodeError {
    /// The index of the entry, counted from 0 in stored order.
    pub entry: usize,
    /// What is wrong with its content.
    pub cause: FormatError,
}

/// The ending of the name of a compiled unit.
pub open spec fn class_suffix() -> Seq<char> {
    seq!['.', 'c', 'l', 'a', 's', 's']
}

/// The ending of the name of an archive.
pub open spec fn archive_suffix() -> Seq<char> {
    seq!['.', 'j', 'a', 'r']
}

/// Whether an entry of this name is a compiled unit.
pub open spec fn is_compiled_unit(name: Seq<char>) -> bool {
    class_suffix().is_suffix_of(name)
}

/// What the rename makes of `entry`: its name has the source prefix at its
/// start replaced; its content is rewritten where the name it came with is
/// that of a compiled unit, and kept otherwise.
pub open spec fn transcoded(entry: Entry, from: Seq<char>, to: Seq<char>) -> Result<
    Entry,
    FormatError,
> {
    let name = renamed_name(entry.name, from, to);
    let method = entry.method.spec_for_output();
    if is_compiled_unit(entry.name) {
        match rewritten(entry.content, from, to) {
            Ok(content) => Ok(Entry { name, content, method }),
            Err(e) => Err(e),
        }
    } else {
        Ok(Entry { name, content: entry.content, method })
    }
}

/// Whether `path` names an archive that can be worked on: it ends in `.jar`.
pub fn is_archive_name(path: &str) -> (ok: bool)
    ensures
        ok == archive_suffix().is_suffix_of(path@),
{
    proof {
        reveal_strlit(".jar");
        assert(".jar"@ =~= archive_suffix());
    }
    ends_with(path, ".jar")
}

/// Whether the entry `name` is a compiled unit: it ends in `.class`.
pub fn is_compiled_unit_name(name: &str) -> (ok: bool)
    ensures
        ok == is_compiled_unit(name@),
{
    proof {
        reveal_strlit(".class");
        assert(".class"@ =~= class_suffix());
    }
    ends_with(name, ".class")
}

/// Renames one entry. The content of an entry that is no compiled unit comes
/// back byte for byte; a compiled unit that cannot be rewritten fails the
/// entry.
pub fn transcode_entry(entry: ArchiveEntry, pattern: &RenamePattern) -> (r: Result<
    ArchiveEntry,
    FormatError,
>)
    ensures
        match r {
            Ok(out) => transcoded(entry@, pattern.source@, pattern.target@) == Ok::<
                Entry,
                FormatError,
            >(out@),
            Err(e) => transcoded(entry@, pattern.source@, pattern.target@) == Err::<
                Entry,
                FormatError,
            >(e),
        },
        !is_compiled_unit(entry.name@) ==> r is Ok && r->Ok_0.content@ == entry.content@,
        r is Ok ==> r->Ok_0.name@ == renamed_name(entry.name@, pattern.source@, pattern.target@),
{
    let name = pattern.rename_entry(entry.name.as_str());
    let method = entry.method.for_output();
    if is_compiled_unit_name(entry.name.as_str()) {
        match rewrite(entry.content.as_slice(), pattern) {
            Ok(content) => Ok(ArchiveEntry { name, content, method }),
            Err(e) => Err(e),
        }
    } else {
        Ok(ArchiveEntry { name, content: entry.content, method })
    }
}

/// Renames every entry of an archive, in stored order. Either every entry
/// comes out, each in the place it had, or the first entry that cannot be
/// rewritten fails the whole archive and nothing comes out.
pub fn transcode_entries(entries: Vec<ArchiveEntry>, pattern: &RenamePattern) -> (r: Result<
    Vec<ArchiveEntry>,
    TranscodeError,
>)
    ensures
        match r {
            Ok(out) => {
                &&& out.len() == entries.len()
                &&& forall|i: int|
                    0 <= i < entries.len() ==> transcoded(
                        #[trigger] entries[i]@,
                        pattern.source@,
                        pattern.target@,
                    ) == Ok::<Entry, FormatError>(out[i]@)
                &&& forall|i: int|
                    0 <= i < entries.len() && !is_compiled_unit(entries[i].name@)
                        ==> #[trigger] out[i].content@ == entries[i].content@
            },
            Err(e) => {
                &&& e.entry < entries.len()
                &&& transcoded(entries[e.entry as int]@, pattern.source@, pattern.target@)
                    == Err::<Entry, FormatError>(e.cause)
                &&& forall|i: int|
                    0 <= i < e.entry ==> transcoded(
                        #[trigger] entries[i]@,
                        pattern.source@,
                        pattern.target@,
                    ) is Ok
            },
        },
{
    let ghost from = pattern.source@;
    let ghost to = pattern.target@;
    let mut out: Vec<ArchiveEntry> = Vec::new();
    let mut index: usize = 0;
    let ghost total = entries.len();
    for entry in it: entries
        invariant
            total == entries@.len(),
            from == pattern.source@,
            to == pattern.target@,
            it.seq() == entries@,
            index == it.index(),
            out.len() == index,
            forall|i: int|
                0 <= i < index ==> transcoded(#[trigger] entries[i]@, from, to) == Ok::<
                    Entry,
                    FormatError,
                >(out[i]@),
    {
        assert(index < total);
        assert(entry == entries[index as int]);
        match transcode_entry(entry, pattern) {
            Ok(renamed) => {
                out.push(renamed);
            },
            Err(cause) => {
                return Err(TranscodeError { entry: index, cause });
            },
        }
        index = index + 1;
    }
    proof {
        assert forall|i: int|
            0 <= i < entries.len() && !is_compiled_unit(
                entries[i].name@,
            ) implies #[trigger] out[i].content@ == entries[i].content@ by {
            assert(transcoded(entries[i]@, from, to) == Ok::<Entry, FormatError>(out[i]@));
        }
    }
    Ok(out)
}

} // verus!
