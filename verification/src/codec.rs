//! The binary form of an archive file.
//!
//! An archive file is a 4-byte little-endian format-version tag followed by
//! the serialized entry table: an 8-byte little-endian entry count, then each
//! entry as an 8-byte little-endian hashed path followed by its row of
//! per-replica states. A state is one tag byte, plus an 8-byte little-endian
//! modification time for the present states.
//!
//! Encoding and decoding are defined here as spec functions over byte
//! sequences, implemented by verified executable functions, and related by
//! proved round-trip lemmas.

use crate::state::ArchiveEntryPerReplica;
use vstd::bytes::*;
use vstd::prelude::*;
use vstd::slice::slice_subrange;

verus! {

/// The format version this crate writes; any other leading tag on read is
/// treated as "no prior knowledge", not as corruption.
pub const ARCHIVE_VERSION: u32 = 3;

/// The byte encoding of one per-replica state.
pub open spec fn spec_encode_state(e: ArchiveEntryPerReplica) -> Seq<u8> {
    match e {
        ArchiveEntryPerReplica::Empty => seq![0u8],
        ArchiveEntryPerReplica::Directory { modified } => seq![1u8] + spec_u64_to_le_bytes(
            modified,
        ),
        ArchiveEntryPerReplica::File { modified } => seq![2u8] + spec_u64_to_le_bytes(modified),
        ArchiveEntryPerReplica::Symlink { modified } => seq![3u8] + spec_u64_to_le_bytes(modified),
    }
}

/// Decodes one per-replica state from the front of `s`, returning the state
/// and the remaining bytes, or `None` if `s` does not start with a valid
/// state.
pub open spec fn spec_decode_state(s: Seq<u8>) -> Option<(ArchiveEntryPerReplica, Seq<u8>)> {
    if s.len() < 1 {
        None
    } else if s[0] == 0u8 {
        Some((ArchiveEntryPerReplica::Empty, s.skip(1)))
    } else if s[0] == 1u8 || s[0] == 2u8 || s[0] == 3u8 {
        if s.len() < 9 {
            None
        } else {
            let modified = spec_u64_from_le_bytes(s.subrange(1, 9));
            let e = if s[0] == 1u8 {
                ArchiveEntryPerReplica::Directory { modified }
            } else if s[0] == 2u8 {
                ArchiveEntryPerReplica::File { modified }
            } else {
                ArchiveEntryPerReplica::Symlink { modified }
            };
            Some((e, s.skip(9)))
        }
    } else {
        None
    }
}

/// The byte encoding of a row: each state in slot order.
pub open spec fn spec_encode_row(row: Seq<ArchiveEntryPerReplica>) -> Seq<u8>
    decreases row.len(),
{
    if row.len() == 0 {
        Seq::empty()
    } else {
        spec_encode_state(row[0]) + spec_encode_row(row.skip(1))
    }
}

/// Decodes a row of exactly `n` states from the front of `s`.
pub open spec fn spec_decode_row(s: Seq<u8>, n: nat) -> Option<
    (Seq<ArchiveEntryPerReplica>, Seq<u8>),
>
    decreases n,
{
    if n == 0 {
        Some((Seq::empty(), s))
    } else {
        match spec_decode_state(s) {
            None => None,
            Some((e, rest)) => match spec_decode_row(rest, (n - 1) as nat) {
                None => None,
                Some((row, rest2)) => Some((seq![e] + row, rest2)),
            },
        }
    }
}

/// The byte encoding of one entry: hashed path, then its row.
pub open spec fn spec_encode_entry(e: (u64, Seq<ArchiveEntryPerReplica>)) -> Seq<u8> {
    spec_u64_to_le_bytes(e.0) + spec_encode_row(e.1)
}

/// Decodes one entry (key and `n`-wide row) from the front of `s`.
pub open spec fn spec_decode_entry(s: Seq<u8>, n: nat) -> Option<
    ((u64, Seq<ArchiveEntryPerReplica>), Seq<u8>),
> {
    if s.len() < 8 {
        None
    } else {
        let key = spec_u64_from_le_bytes(s.take(8));
        match spec_decode_row(s.skip(8), n) {
            None => None,
            Some((row, rest)) => Some(((key, row), rest)),
        }
    }
}

/// The byte encoding of a sequence of entries, in order.
pub open spec fn spec_encode_entries(es: Seq<(u64, Seq<ArchiveEntryPerReplica>)>) -> Seq<u8>
    decreases es.len(),
{
    if es.len() == 0 {
        Seq::empty()
    } else {
        spec_encode_entry(es[0]) + spec_encode_entries(es.skip(1))
    }
}

/// Decodes exactly `count` entries with `n`-wide rows from the front of `s`.
pub open spec fn spec_decode_entries(s: Seq<u8>, count: nat, n: nat) -> Option<
    (Seq<(u64, Seq<ArchiveEntryPerReplica>)>, Seq<u8>),
>
    decreases count,
{
    if count == 0 {
        Some((Seq::empty(), s))
    } else {
        match spec_decode_entry(s, n) {
            None => None,
            Some((e, rest)) => match spec_decode_entries(rest, (count - 1) as nat, n) {
                None => None,
                Some((es, rest2)) => Some((seq![e] + es, rest2)),
            },
        }
    }
}

/// The byte image of a whole archive file: version tag, entry count, entries.
pub open spec fn spec_encode_archive(es: Seq<(u64, Seq<ArchiveEntryPerReplica>)>) -> Seq<u8> {
    spec_u32_to_le_bytes(ARCHIVE_VERSION) + spec_u64_to_le_bytes(es.len() as u64)
        + spec_encode_entries(es)
}

/// The version tag carried by a file image (its leading four bytes).
pub open spec fn spec_version_of(s: Seq<u8>) -> u32
    recommends
        s.len() >= 4,
{
    spec_u32_from_le_bytes(s.take(4))
}

/// Decodes the payload that follows the version tag: the entry count, then
/// exactly that many entries, with nothing left over.
pub open spec fn spec_decode_payload(s: Seq<u8>, n: nat) -> Option<
    Seq<(u64, Seq<ArchiveEntryPerReplica>)>,
> {
    if s.len() < 8 {
        None
    } else {
        let count = spec_u64_from_le_bytes(s.take(8));
        match spec_decode_entries(s.skip(8), count as nat, n) {
            None => None,
            Some((es, rest)) => if rest.len() == 0 {
                Some(es)
            } else {
                None
            },
        }
    }
}

/// The entry sequence held by a vector of (key, row) pairs, with rows seen
/// as sequences.
pub open spec fn entries_view(es: Seq<(u64, Vec<ArchiveEntryPerReplica>)>) -> Seq<
    (u64, Seq<ArchiveEntryPerReplica>),
> {
    Seq::new(es.len(), |i: int| (es[i].0, es[i].1@))
}

/// Encoding a concatenation of rows encodes each part in turn.
pub proof fn lemma_encode_row_concat(a: Seq<ArchiveEntryPerReplica>, b: Seq<ArchiveEntryPerReplica>)
    ensures
        spec_encode_row(a + b) == spec_encode_row(a) + spec_encode_row(b),
    decreases a.len(),
{
    if a.len() == 0 {
        assert(a + b =~= b);
        assert(spec_encode_row(a) + spec_encode_row(b) =~= spec_encode_row(b));
    } else {
        assert((a + b)[0] == a[0]);
        assert((a + b).skip(1) =~= a.skip(1) + b);
        lemma_encode_row_concat(a.skip(1), b);
        assert(spec_encode_state(a[0]) + (spec_encode_row(a.skip(1)) + spec_encode_row(b)) =~= (
        spec_encode_state(a[0]) + spec_encode_row(a.skip(1))) + spec_encode_row(b));
    }
}

/// The encoding of a one-state row is the encoding of that state.
pub proof fn lemma_encode_row_singleton(e: ArchiveEntryPerReplica)
    ensures
        spec_encode_row(seq![e]) == spec_encode_state(e),
{
    reveal_with_fuel(spec_encode_row, 2);
    assert(seq![e].skip(1) =~= Seq::<ArchiveEntryPerReplica>::empty());
    assert(seq![e][0] == e);
    assert(spec_encode_state(e) + Seq::<u8>::empty() =~= spec_encode_state(e));
}

/// Encoding a concatenation of entry sequences encodes each part in turn.
pub proof fn lemma_encode_entries_concat(
    a: Seq<(u64, Seq<ArchiveEntryPerReplica>)>,
    b: Seq<(u64, Seq<ArchiveEntryPerReplica>)>,
)
    ensures
        spec_encode_entries(a + b) == spec_encode_entries(a) + spec_encode_entries(b),
    decreases a.len(),
{
    if a.len() == 0 {
        assert(a + b =~= b);
        assert(spec_encode_entries(a) + spec_encode_entries(b) =~= spec_encode_entries(b));
    } else {
        assert((a + b)[0] == a[0]);
        assert((a + b).skip(1) =~= a.skip(1) + b);
        lemma_encode_entries_concat(a.skip(1), b);
        assert(spec_encode_entry(a[0]) + (spec_encode_entries(a.skip(1)) + spec_encode_entries(b))
            =~= (spec_encode_entry(a[0]) + spec_encode_entries(a.skip(1))) + spec_encode_entries(
            b,
        ));
    }
}

/// The encoding of a one-entry sequence is the encoding of that entry.
pub proof fn lemma_encode_entries_singleton(e: (u64, Seq<ArchiveEntryPerReplica>))
    ensures
        spec_encode_entries(seq![e]) == spec_encode_entry(e),
{
    reveal_with_fuel(spec_encode_entries, 2);
    assert(seq![e].skip(1) =~= Seq::<(u64, Seq<ArchiveEntryPerReplica>)>::empty());
    assert(seq![e][0] == e);
    assert(spec_encode_entry(e) + Seq::<u8>::empty() =~= spec_encode_entry(e));
}

/// Decoding inverts encoding for one state, whatever bytes follow.
pub proof fn lemma_state_round_trip(e: ArchiveEntryPerReplica, rest: Seq<u8>)
    ensures
        spec_decode_state(spec_encode_state(e) + rest) == Some((e, rest)),
{
    lemma_auto_spec_u64_to_from_le_bytes();
    let s = spec_encode_state(e) + rest;
    match e {
        ArchiveEntryPerReplica::Empty => {
            assert(s[0] == 0u8);
            assert(s.skip(1) =~= rest);
        },
        ArchiveEntryPerReplica::Directory { modified } => {
            assert(s[0] == 1u8);
            assert(s.subrange(1, 9) =~= spec_u64_to_le_bytes(modified));
            assert(s.skip(9) =~= rest);
        },
        ArchiveEntryPerReplica::File { modified } => {
            assert(s[0] == 2u8);
            assert(s.subrange(1, 9) =~= spec_u64_to_le_bytes(modified));
            assert(s.skip(9) =~= rest);
        },
        ArchiveEntryPerReplica::Symlink { modified } => {
            assert(s[0] == 3u8);
            assert(s.subrange(1, 9) =~= spec_u64_to_le_bytes(modified));
            assert(s.skip(9) =~= rest);
        },
    }
}

/// Decoding inverts encoding for a row, whatever bytes follow.
pub proof fn lemma_row_round_trip(row: Seq<ArchiveEntryPerReplica>, rest: Seq<u8>)
    ensures
        spec_decode_row(spec_encode_row(row) + rest, row.len()) == Some((row, rest)),
    decreases row.len(),
{
    if row.len() == 0 {
        assert(spec_encode_row(row) + rest =~= rest);
        assert(row =~= Seq::<ArchiveEntryPerReplica>::empty());
    } else {
        let head = row[0];
        let tail = row.skip(1);
        let tail_bytes = spec_encode_row(tail) + rest;
        assert(spec_encode_row(row) + rest =~= spec_encode_state(head) + tail_bytes);
        lemma_state_round_trip(head, tail_bytes);
        lemma_row_round_trip(tail, rest);
        assert(seq![head] + tail =~= row);
    }
}

/// Decoding inverts encoding for one entry, whatever bytes follow.
pub proof fn lemma_entry_round_trip(e: (u64, Seq<ArchiveEntryPerReplica>), rest: Seq<u8>)
    ensures
        spec_decode_entry(spec_encode_entry(e) + rest, e.1.len()) == Some((e, rest)),
{
    lemma_auto_spec_u64_to_from_le_bytes();
    let s = spec_encode_entry(e) + rest;
    assert(s.take(8) =~= spec_u64_to_le_bytes(e.0));
    assert(s.skip(8) =~= spec_encode_row(e.1) + rest);
    lemma_row_round_trip(e.1, rest);
}

/// Decoding inverts encoding for an entry sequence whose rows are all
/// `n`-wide, whatever bytes follow.
pub proof fn lemma_entries_round_trip(
    es: Seq<(u64, Seq<ArchiveEntryPerReplica>)>,
    rest: Seq<u8>,
    n: nat,
)
    requires
        forall|i: int| 0 <= i < es.len() ==> (#[trigger] es[i]).1.len() == n,
    ensures
        spec_decode_entries(spec_encode_entries(es) + rest, es.len(), n) == Some((es, rest)),
    decreases es.len(),
{
    if es.len() == 0 {
        assert(spec_encode_entries(es) + rest =~= rest);
        assert(es =~= Seq::<(u64, Seq<ArchiveEntryPerReplica>)>::empty());
    } else {
        let head = es[0];
        let tail = es.skip(1);
        assert(forall|i: int| 0 <= i < tail.len() ==> (#[trigger] tail[i]).1.len() == n) by {
            assert(forall|i: int|
                0 <= i < tail.len() ==> (#[trigger] tail[i]) == es[i + 1] && es[i + 1].1.len()
                    == n);
        }
        let tail_bytes = spec_encode_entries(tail) + rest;
        assert(spec_encode_entries(es) + rest =~= spec_encode_entry(head) + tail_bytes);
        assert(head.1.len() == n);
        lemma_entry_round_trip(head, tail_bytes);
        lemma_entries_round_trip(tail, rest, n);
        assert(seq![head] + tail =~= es);
    }
}

/// Decoding inverts encoding for a whole archive image: the version tag
/// reads back as the current version, and the payload reads back as exactly
/// the entries that were written.
pub proof fn lemma_archive_round_trip(es: Seq<(u64, Seq<ArchiveEntryPerReplica>)>, n: nat)
    requires
        forall|i: int| 0 <= i < es.len() ==> (#[trigger] es[i]).1.len() == n,
        es.len() <= u64::MAX,
    ensures
        spec_encode_archive(es).len() >= 4,
        spec_version_of(spec_encode_archive(es)) == ARCHIVE_VERSION,
        spec_decode_payload(spec_encode_archive(es).skip(4), n) == Some(es),
{
    lemma_auto_spec_u32_to_from_le_bytes();
    lemma_auto_spec_u64_to_from_le_bytes();
    let s = spec_encode_archive(es);
    assert(s.take(4) =~= spec_u32_to_le_bytes(ARCHIVE_VERSION));
    let p = s.skip(4);
    assert(p.take(8) =~= spec_u64_to_le_bytes(es.len() as u64));
    assert(spec_u64_from_le_bytes(p.take(8)) == es.len() as u64);
    assert(p.skip(8) =~= spec_encode_entries(es) + Seq::<u8>::empty());
    lemma_entries_round_trip(es, Seq::<u8>::empty(), n);
}

/// Appends the encoding of one state.
pub fn encode_state(out: &mut Vec<u8>, e: &ArchiveEntryPerReplica)
    ensures
        final(out)@ == old(out)@ + spec_encode_state(*e),
{
    match e {
        ArchiveEntryPerReplica::Empty => {
            out.push(0u8);
            proof {
                assert(old(out)@.push(0u8) =~= old(out)@ + spec_encode_state(*e));
            }
        },
        ArchiveEntryPerReplica::Directory { modified } => {
            out.push(1u8);
            let mut tmp = u64_to_le_bytes(*modified);
            out.append(&mut tmp);
            proof {
                assert(old(out)@.push(1u8) + spec_u64_to_le_bytes(*modified) =~= old(out)@
                    + spec_encode_state(*e));
            }
        },
        ArchiveEntryPerReplica::File { modified } => {
            out.push(2u8);
            let mut tmp = u64_to_le_bytes(*modified);
            out.append(&mut tmp);
            proof {
                assert(old(out)@.push(2u8) + spec_u64_to_le_bytes(*modified) =~= old(out)@
                    + spec_encode_state(*e));
            }
        },
        ArchiveEntryPerReplica::Symlink { modified } => {
            out.push(3u8);
            let mut tmp = u64_to_le_bytes(*modified);
            out.append(&mut tmp);
            proof {
                assert(old(out)@.push(3u8) + spec_u64_to_le_bytes(*modified) =~= old(out)@
                    + spec_encode_state(*e));
            }
        },
    }
}

/// Appends the encoding of a row.
pub fn encode_row(out: &mut Vec<u8>, row: &Vec<ArchiveEntryPerReplica>)
    ensures
        final(out)@ == old(out)@ + spec_encode_row(row@),
{
    let mut i: usize = 0;
    while i < row.len()
        invariant
            i <= row@.len(),
            out@ == old(out)@ + spec_encode_row(row@.take(i as int)),
        decreases row@.len() - i,
    {
        encode_state(out, &row[i]);
        proof {
            lemma_encode_row_concat(row@.take(i as int), seq![row@[i as int]]);
            lemma_encode_row_singleton(row@[i as int]);
            assert(row@.take(i as int) + seq![row@[i as int]] =~= row@.take(i + 1));
        }
        i = i + 1;
    }
    proof {
        assert(row@.take(row@.len() as int) =~= row@);
    }
}

/// Appends the encoding of one entry.
pub fn encode_entry(out: &mut Vec<u8>, key: u64, row: &Vec<ArchiveEntryPerReplica>)
    ensures
        final(out)@ == old(out)@ + spec_encode_entry((key, row@)),
{
    let mut tmp = u64_to_le_bytes(key);
    out.append(&mut tmp);
    encode_row(out, row);
    proof {
        assert((old(out)@ + spec_u64_to_le_bytes(key)) + spec_encode_row(row@) =~= old(out)@
            + spec_encode_entry((key, row@)));
    }
}

/// Produces the byte image of a whole archive file holding the given
/// entries, in order.
pub fn encode_archive_bytes(es: &Vec<(u64, Vec<ArchiveEntryPerReplica>)>) -> (out: Vec<u8>)
    ensures
        out@ == spec_encode_archive(entries_view(es@)),
{
    let mut out: Vec<u8> = Vec::new();
    let mut tag = u32_to_le_bytes(ARCHIVE_VERSION);
    out.append(&mut tag);
    let mut count = u64_to_le_bytes(es.len() as u64);
    out.append(&mut count);
    let header: Ghost<Seq<u8>> = Ghost(out@);
    proof {
        assert(entries_view(es@).take(0) =~= Seq::<(u64, Seq<ArchiveEntryPerReplica>)>::empty());
        assert(out@ =~= header@ + spec_encode_entries(entries_view(es@).take(0)));
    }
    let mut i: usize = 0;
    while i < es.len()
        invariant
            i <= es@.len(),
            header@ == spec_u32_to_le_bytes(ARCHIVE_VERSION) + spec_u64_to_le_bytes(
                es@.len() as u64,
            ),
            out@ == header@ + spec_encode_entries(entries_view(es@).take(i as int)),
        decreases es@.len() - i,
    {
        let entry = &es[i];
        encode_entry(&mut out, entry.0, &entry.1);
        proof {
            let ev = entries_view(es@);
            lemma_encode_entries_concat(ev.take(i as int), seq![ev[i as int]]);
            lemma_encode_entries_singleton(ev[i as int]);
            assert(ev.take(i as int) + seq![ev[i as int]] =~= ev.take(i + 1));
            assert(ev[i as int] == (es@[i as int].0, es@[i as int].1@));
        }
        i = i + 1;
    }
    proof {
        assert(entries_view(es@).take(es@.len() as int) =~= entries_view(es@));
        assert(entries_view(es@).len() == es@.len());
        assert((spec_u32_to_le_bytes(ARCHIVE_VERSION) + spec_u64_to_le_bytes(es@.len() as u64))
            + spec_encode_entries(entries_view(es@)) =~= spec_encode_archive(entries_view(es@)));
    }
    out
}

/// Decodes one state starting at `pos`, returning it with the position just
/// past it, or `None` where the spec decoder rejects the bytes.
pub fn decode_state(bytes: &Vec<u8>, pos: usize) -> (r: Option<(ArchiveEntryPerReplica, usize)>)
    requires
        pos <= bytes@.len(),
    ensures
        match r {
            Some(p) => pos < p.1 <= bytes@.len() && spec_decode_state(bytes@.skip(pos as int))
                == Some((p.0, bytes@.skip(p.1 as int))),
            None => spec_decode_state(bytes@.skip(pos as int)) is None,
        },
{
    let ghost s = bytes@.skip(pos as int);
    if pos >= bytes.len() {
        return None;
    }
    let tag = bytes[pos];
    proof {
        assert(s[0] == bytes@[pos as int]);
    }
    if tag == 0u8 {
        proof {
            assert(s.skip(1) =~= bytes@.skip(pos + 1));
        }
        Some((ArchiveEntryPerReplica::Empty, pos + 1))
    } else if tag == 1u8 || tag == 2u8 || tag == 3u8 {
        if bytes.len() - pos < 9 {
            return None;
        }
        let modified = u64_from_le_bytes(slice_subrange(bytes.as_slice(), pos + 1, pos + 9));
        proof {
            assert(bytes@.subrange(pos + 1, pos + 9) =~= s.subrange(1, 9));
            assert(s.skip(9) =~= bytes@.skip(pos + 9));
        }
        let e = if tag == 1u8 {
            ArchiveEntryPerReplica::Directory { modified }
        } else if tag == 2u8 {
            ArchiveEntryPerReplica::File { modified }
        } else {
            ArchiveEntryPerReplica::Symlink { modified }
        };
        Some((e, pos + 9))
    } else {
        None
    }
}

/// Decodes an `n`-wide row starting at `pos`.
pub fn decode_row(bytes: &Vec<u8>, pos: usize, n: usize) -> (r: Option<
    (Vec<ArchiveEntryPerReplica>, usize),
>)
    requires
        pos <= bytes@.len(),
    ensures
        match r {
            Some(p) => pos <= p.1 <= bytes@.len() && p.0@.len() == n && spec_decode_row(
                bytes@.skip(pos as int),
                n as nat,
            ) == Some((p.0@, bytes@.skip(p.1 as int))),
            None => spec_decode_row(bytes@.skip(pos as int), n as nat) is None,
        },
    decreases n,
{
    if n == 0 {
        Some((Vec::new(), pos))
    } else {
        match decode_state(bytes, pos) {
            None => None,
            Some((e, p1)) => {
                match decode_row(bytes, p1, n - 1) {
                    None => None,
                    Some((tail, p2)) => {
                        let mut row = tail;
                        row.insert(0, e);
                        proof {
                            assert(row@ =~= seq![e] + row@.skip(1));
                        }
                        Some((row, p2))
                    },
                }
            },
        }
    }
}

/// Decodes one entry (key and `n`-wide row) starting at `pos`.
pub fn decode_entry(bytes: &Vec<u8>, pos: usize, n: usize) -> (r: Option<
    ((u64, Vec<ArchiveEntryPerReplica>), usize),
>)
    requires
        pos <= bytes@.len(),
    ensures
        match r {
            Some(p) => pos <= p.1 <= bytes@.len() && p.0.1@.len() == n && spec_decode_entry(
                bytes@.skip(pos as int),
                n as nat,
            ) == Some(((p.0.0, p.0.1@), bytes@.skip(p.1 as int))),
            None => spec_decode_entry(bytes@.skip(pos as int), n as nat) is None,
        },
{
    let ghost s = bytes@.skip(pos as int);
    if bytes.len() - pos < 8 {
        return None;
    }
    let key = u64_from_le_bytes(slice_subrange(bytes.as_slice(), pos, pos + 8));
    proof {
        assert(bytes@.subrange(pos as int, pos + 8) =~= s.take(8));
        assert(s.skip(8) =~= bytes@.skip(pos + 8));
    }
    match decode_row(bytes, pos + 8, n) {
        None => None,
        Some((row, p1)) => Some(((key, row), p1)),
    }
}

/// Decodes exactly `count` entries with `n`-wide rows starting at `pos`.
pub fn decode_entries(bytes: &Vec<u8>, pos: usize, count: u64, n: usize) -> (r: Option<
    (Vec<(u64, Vec<ArchiveEntryPerReplica>)>, usize),
>)
    requires
        pos <= bytes@.len(),
    ensures
        match r {
            Some(p) => pos <= p.1 <= bytes@.len() && spec_decode_entries(
                bytes@.skip(pos as int),
                count as nat,
                n as nat,
            ) == Some((entries_view(p.0@), bytes@.skip(p.1 as int))) && (forall|i: int|
                0 <= i < p.0@.len() ==> (#[trigger] p.0@[i]).1@.len() == n),
            None => spec_decode_entries(bytes@.skip(pos as int), count as nat, n as nat) is None,
        },
    decreases count,
{
    if count == 0 {
        let es: Vec<(u64, Vec<ArchiveEntryPerReplica>)> = Vec::new();
        proof {
            assert(entries_view(es@) =~= Seq::<(u64, Seq<ArchiveEntryPerReplica>)>::empty());
        }
        Some((es, pos))
    } else {
        match decode_entry(bytes, pos, n) {
            None => None,
            Some((e, p1)) => {
                match decode_entries(bytes, p1, count - 1, n) {
                    None => None,
                    Some((tail, p2)) => {
                        let ghost tail_view = entries_view(tail@);
                        let ghost ekey = e.0;
                        let ghost erow = e.1@;
                        let mut es = tail;
                        es.insert(0, e);
                        proof {
                            assert(entries_view(es@) =~= seq![(ekey, erow)] + tail_view);
                        }
                        Some((es, p2))
                    },
                }
            },
        }
    }
}

/// Decodes the payload of an archive file image, the bytes after the version
/// tag: the entry count, then exactly that many entries, with nothing left
/// over.
pub fn decode_payload(bytes: &Vec<u8>, pos: usize, n: usize) -> (r: Option<
    Vec<(u64, Vec<ArchiveEntryPerReplica>)>,
>)
    requires
        pos <= bytes@.len(),
    ensures
        match r {
            Some(es) => spec_decode_payload(bytes@.skip(pos as int), n as nat) == Some(
                entries_view(es@),
            ) && (forall|i: int| 0 <= i < es@.len() ==> (#[trigger] es@[i]).1@.len() == n),
            None => spec_decode_payload(bytes@.skip(pos as int), n as nat) is None,
        },
{
    let ghost s = bytes@.skip(pos as int);
    if bytes.len() - pos < 8 {
        return None;
    }
    let count = u64_from_le_bytes(slice_subrange(bytes.as_slice(), pos, pos + 8));
    proof {
        assert(bytes@.subrange(pos as int, pos + 8) =~= s.take(8));
        assert(s.skip(8) =~= bytes@.skip(pos + 8));
    }
    match decode_entries(bytes, pos + 8, count, n) {
        None => None,
        Some((es, p1)) => {
            if p1 == bytes.len() {
                proof {
                    assert(bytes@.skip(p1 as int).len() == 0);
                }
                Some(es)
            } else {
                proof {
                    assert(bytes@.skip(p1 as int).len() != 0);
                }
                None
            }
        },
    }
}

} // verus!
