//! The rewriting of one class file: the header is kept, every record of the
//! constant pool is renamed, and what follows the pool is carried over.

use crate::cursor::{ByteReader, ByteWriter};
use crate::endian::{
    lemma_u16_be_round_trip, lemma_u32_be_round_trip, u16_from_be, u16_to_be, u32_from_be,
    u32_to_be,
};
use crate::error::FormatError;
use crate::pattern::RenamePattern;
use crate::record::{parse_record, ConstantPoolRecord, Record};
use vstd::prelude::*;

verus! {

/// The size of what stands before the constant pool: the magic number, the
/// two version numbers and the pool count.
pub const HEADER_LEN: usize = 10;

/// The number of records in the pool of a class file of at least
/// `HEADER_LEN` bytes: one less than the count that the header states, and
/// none where it states zero.
pub open spec fn record_count(bytes: Seq<u8>) -> nat {
    let stated = u16_from_be(bytes[8], bytes[9]);
    if stated == 0 {
        0
    } else {
        (stated - 1) as nat
    }
}

/// The first `n` records of `s`, each renamed and laid out in bytes again,
/// together with what follows them in `s`. The first record that cannot be
/// read or renamed decides the error.
pub open spec fn rewrite_pool(s: Seq<u8>, n: nat, from: Seq<char>, to: Seq<char>) -> Result<
    (Seq<u8>, Seq<u8>),
    FormatError,
>
    decreases n,
{
    if n == 0 {
        Ok((Seq::empty(), s))
    } else {
        match parse_record(s) {
            Err(e) => Err(e),
            Ok((rec, rest)) => match rec.renamed(from, to) {
                Err(e) => Err(e),
                Ok(renamed) => match rewrite_pool(rest, (n - 1) as nat, from, to) {
                    Err(e) => Err(e),
                    Ok((pool, tail)) => Ok((renamed.to_bytes() + pool, tail)),
                },
            },
        }
    }
}

/// The class file `bytes` after the rename: its header, its renamed pool and
/// its unread tail.
pub open spec fn rewritten(bytes: Seq<u8>, from: Seq<char>, to: Seq<char>) -> Result<
    Seq<u8>,
    FormatError,
> {
    if bytes.len() < HEADER_LEN {
        Err(FormatError::Truncated)
    } else {
        match rewrite_pool(bytes.skip(HEADER_LEN as int), record_count(bytes), from, to) {
            Err(e) => Err(e),
            Ok((pool, tail)) => Ok(bytes.take(HEADER_LEN as int) + pool + tail),
        }
    }
}

/// `r` with `done` put before the bytes that it holds.
pub open spec fn after(done: Seq<u8>, r: Result<(Seq<u8>, Seq<u8>), FormatError>) -> Result<
    (Seq<u8>, Seq<u8>),
    FormatError,
> {
    match r {
        Err(e) => Err(e),
        Ok((pool, tail)) => Ok((done + pool, tail)),
    }
}

/// Rewriting `n + 1` records is rewriting one and then `n`.
proof fn lemma_rewrite_pool_step(s: Seq<u8>, n: nat, from: Seq<char>, to: Seq<char>)
    requires
        n > 0,
    ensures
        rewrite_pool(s, n, from, to) == match parse_record(s) {
            Err(e) => Err(e),
            Ok((rec, rest)) => match rec.renamed(from, to) {
                Err(e) => Err(e),
                Ok(renamed) => after(
                    renamed.to_bytes(),
                    rewrite_pool(rest, (n - 1) as nat, from, to),
                ),
            },
        },
{
}

/// Rewrites the class file `bytecode`: every text record of its constant pool
/// has each match of the source prefix replaced by the target prefix, with
/// its length field set anew; everything else is copied. Fails with
/// `Truncated` where the buffer ends within the header or a record, and with
/// `TextTooLong` where a renamed text exceeds what a record can hold.
pub fn rewrite(bytecode: &[u8], pattern: &RenamePattern) -> (r: Result<Vec<u8>, FormatError>)
    ensures
        match r {
            Ok(out) => rewritten(bytecode@, pattern.source@, pattern.target@) == Ok::<
                Seq<u8>,
                FormatError,
            >(out@),
            Err(e) => rewritten(bytecode@, pattern.source@, pattern.target@) == Err::<
                Seq<u8>,
                FormatError,
            >(e),
        },
        r is Ok ==> bytecode@.len() >= HEADER_LEN && r->Ok_0@.len() >= HEADER_LEN
            && r->Ok_0@.take(HEADER_LEN as int) == bytecode@.take(HEADER_LEN as int),
{
    let ghost from = pattern.source@;
    let ghost to = pattern.target@;
    let ghost input = bytecode@;
    let mut reader = ByteReader::new(bytecode);
    let mut writer = ByteWriter::new();

    let magic = match reader.read_u32() {
        Ok(magic) => magic,
        Err(e) => {
            return Err(e);
        },
    };
    let minor_version = match reader.read_u16() {
        Ok(minor_version) => minor_version,
        Err(e) => {
            return Err(e);
        },
    };
    let major_version = match reader.read_u16() {
        Ok(major_version) => major_version,
        Err(e) => {
            return Err(e);
        },
    };
    let constant_pool_count = match reader.read_u16() {
        Ok(constant_pool_count) => constant_pool_count,
        Err(e) => {
            return Err(e);
        },
    };

    writer.write_u32(magic);
    writer.write_u16(minor_version);
    writer.write_u16(major_version);
    writer.write_u16(constant_pool_count);

    let ghost header = input.take(HEADER_LEN as int);
    let ghost pool_start = input.skip(HEADER_LEN as int);
    let ghost total = record_count(input);
    proof {
        lemma_u32_be_round_trip(input[0], input[1], input[2], input[3]);
        lemma_u16_be_round_trip(input[4], input[5]);
        lemma_u16_be_round_trip(input[6], input[7]);
        lemma_u16_be_round_trip(input[8], input[9]);
        assert(input.skip(4)[0] == input[4] && input.skip(4)[1] == input[5]);
        assert(input.skip(4).skip(2)[0] == input[6] && input.skip(4).skip(2)[1] == input[7]);
        assert(input.skip(4).skip(2).skip(2)[0] == input[8] && input.skip(4).skip(2).skip(2)[1]
            == input[9]);
        assert(writer@ =~= header);
        assert(reader.remaining() =~= pool_start);
    }

    let ghost mut done: Seq<u8> = Seq::empty();
    let mut i: u16 = 1;
    while i < constant_pool_count
        invariant
            1 <= i,
            i <= constant_pool_count || constant_pool_count == 0,
            constant_pool_count == u16_from_be(input[8], input[9]),
            input == bytecode@,
            input.len() >= HEADER_LEN,
            pool_start == input.skip(HEADER_LEN as int),
            total == record_count(input),
            from == pattern.source@,
            to == pattern.target@,
            header == input.take(HEADER_LEN as int),
            reader.buffer() == input,
            writer@ == header + done,
            rewrite_pool(pool_start, total, from, to) == after(
                done,
                rewrite_pool(
                    reader.remaining(),
                    if constant_pool_count == 0 {
                        0
                    } else {
                        (constant_pool_count - i) as nat
                    },
                    from,
                    to,
                ),
            ),
        decreases constant_pool_count - i,
    {
        let ghost left = (constant_pool_count - i) as nat;
        let ghost s = reader.remaining();
        proof {
            lemma_rewrite_pool_step(s, left, from, to);
        }
        let record = match ConstantPoolRecord::read(&mut reader) {
            Ok(record) => record,
            Err(e) => {
                return Err(e);
            },
        };
        let renamed = match record.rename(pattern) {
            Ok(renamed) => renamed,
            Err(e) => {
                return Err(e);
            },
        };
        renamed.write(&mut writer);
        proof {
            let next = rewrite_pool(reader.remaining(), (left - 1) as nat, from, to);
            let bytes = renamed@.to_bytes();
            assert(after(done, after(bytes, next)) == after(done + bytes, next)) by {
                if let Ok((pool, tail)) = next {
                    assert(done + (bytes + pool) =~= (done + bytes) + pool);
                }
            }
            assert(writer@ =~= header + (done + bytes));
            done = done + bytes;
        }
        i = i + 1;
    }

    let tail = reader.read_to_end();
    writer.write_all(tail);
    let out = writer.into_bytes();
    proof {
        assert(rewrite_pool(pool_start, total, from, to) == Ok::<(Seq<u8>, Seq<u8>), FormatError>(
            (done, tail@),
        )) by {
            assert(done + Seq::<u8>::empty() =~= done);
        }
        assert(out@ =~= header + done + tail@);
        assert(out@.take(HEADER_LEN as int) =~= header);
    }
    Ok(out)
}

} // verus!
