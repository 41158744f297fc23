use vstd::prelude::*;
use vstd::string::StringSliceAdditionalSpecFns;
use crate::bytes::{le16, le32, r16, r32, u16_at, u16le, u32_at, u32le};
use crate::crc::{crc32, crc32_of};
use crate::npy::{
    make_npy, npy_contents, npy_file, npy_header_cut_short, npy_header_fits, parse_npy, slice_range,
    NpyArray,
};

verus! {

/// Signature of a ZIP local file header.
pub const LOCAL_HEADER_SIGNATURE: u32 = 0x0403_4b50;

/// Signature of a ZIP central directory file header.
pub const CENTRAL_HEADER_SIGNATURE: u32 = 0x0201_4b50;

/// Signature of the ZIP end-of-central-directory record.
pub const END_OF_CENTRAL_DIRECTORY_SIGNATURE: u32 = 0x0605_4b50;

/// A local file header for a stored (uncompressed) file: version 2.0, no flags, no
/// timestamp, no extra field.
pub open spec fn local_header(name: Seq<u8>, size: u32, crc: u32) -> Seq<u8> {
    le32(LOCAL_HEADER_SIGNATURE) + le16(20) + le16(0) + le16(0) + le16(0) + le16(0) + le32(crc)
        + le32(size) + le32(size) + le16(name.len() as u16) + le16(0) + name
}

/// A central directory header for a stored file whose local header is at `offset`.
pub open spec fn central_header(name: Seq<u8>, size: u32, crc: u32, offset: u32) -> Seq<u8> {
    le32(CENTRAL_HEADER_SIGNATURE) + le16(20) + le16(20) + le16(0) + le16(0) + le16(0) + le16(0)
        + le32(crc) + le32(size) + le32(size) + le16(name.len() as u16) + le16(0) + le16(0) + le16(
        0,
    ) + le16(0) + le32(0) + le32(offset) + name
}

/// The end-of-central-directory record of a single-disk archive without comment.
pub open spec fn end_of_central_directory(count: u16, dir_size: u32, dir_offset: u32) -> Seq<u8> {
    le32(END_OF_CENTRAL_DIRECTORY_SIGNATURE) + le16(0) + le16(0) + le16(count) + le16(count)
        + le32(dir_size) + le32(dir_offset) + le16(0)
}

/// Appends a local file header.
pub fn write_local_header(out: &mut Vec<u8>, name: &[u8], size: u32, crc: u32)
    ensures
        final(out)@ == old(out)@ + local_header(name@, size, crc),
{
    u32le(out, LOCAL_HEADER_SIGNATURE);
    u16le(out, 20);
    u16le(out, 0);
    u16le(out, 0);
    u16le(out, 0);
    u16le(out, 0);
    u32le(out, crc);
    u32le(out, size);
    u32le(out, size);
    u16le(out, name.len() as u16);
    u16le(out, 0);
    out.extend_from_slice(name);
    proof {
        assert(final(out)@ =~= old(out)@ + local_header(name@, size, crc));
    }
}

/// Appends a central directory header.
pub fn write_central_header(out: &mut Vec<u8>, name: &[u8], size: u32, crc: u32, offset: u32)
    ensures
        final(out)@ == old(out)@ + central_header(name@, size, crc, offset),
{
    u32le(out, CENTRAL_HEADER_SIGNATURE);
    u16le(out, 20);
    u16le(out, 20);
    u16le(out, 0);
    u16le(out, 0);
    u16le(out, 0);
    u16le(out, 0);
    u32le(out, crc);
    u32le(out, size);
    u32le(out, size);
    u16le(out, name.len() as u16);
    u16le(out, 0);
    u16le(out, 0);
    u16le(out, 0);
    u16le(out, 0);
    u32le(out, 0);
    u32le(out, offset);
    out.extend_from_slice(name);
    proof {
        assert(final(out)@ =~= old(out)@ + central_header(name@, size, crc, offset));
    }
}

/// Appends the end-of-central-directory record.
pub fn write_eocd(out: &mut Vec<u8>, count: u16, dir_size: u32, dir_offset: u32)
    ensures
        final(out)@ == old(out)@ + end_of_central_directory(count, dir_size, dir_offset),
{
    u32le(out, END_OF_CENTRAL_DIRECTORY_SIGNATURE);
    u16le(out, 0);
    u16le(out, 0);
    u16le(out, count);
    u16le(out, count);
    u32le(out, dir_size);
    u32le(out, dir_offset);
    u16le(out, 0);
    proof {
        assert(final(out)@ =~= old(out)@ + end_of_central_directory(count, dir_size, dir_offset));
    }
}

/// The suffix that names an array file inside an `.npz` archive: `.npy`.
pub open spec fn npy_suffix() -> Seq<u8> {
    seq![0x2eu8, 0x6eu8, 0x70u8, 0x79u8]
}

/// The record that stores one named file: its local header, then its bytes.
pub open spec fn local_record(entry: (Seq<u8>, Seq<u8>)) -> Seq<u8> {
    local_header(entry.0, entry.1.len() as u32, crc32_of(entry.1)) + entry.1
}

/// The local records of all the files, in order.
pub open spec fn local_records(entries: Seq<(Seq<u8>, Seq<u8>)>) -> Seq<u8>
    decreases entries.len(),
{
    if entries.len() == 0 {
        seq![]
    } else {
        local_records(entries.drop_last()) + local_record(entries.last())
    }
}

/// The central directory headers of the first `count` files; each points at the offset of
/// its local record (truncated to 32 bits).
pub open spec fn central_records(entries: Seq<(Seq<u8>, Seq<u8>)>, count: nat) -> Seq<u8>
    decreases count,
{
    if count == 0 {
        seq![]
    } else {
        let i = count - 1;
        central_records(entries, i as nat) + central_header(
            entries[i].0,
            entries[i].1.len() as u32,
            crc32_of(entries[i].1),
            local_records(entries.take(i)).len() as u32,
        )
    }
}

/// Whether the central directory size that the archive records can be formed: the 32-bit
/// truncation of the directory's end is not below that of its start, so that their
/// difference is not negative.
pub open spec fn archive_directory_fits(entries: Seq<(Seq<u8>, Seq<u8>)>) -> bool {
    let start = local_records(entries).len();
    let end = start + central_records(entries, entries.len()).len();
    (end as u32) >= (start as u32)
}

/// A stored (uncompressed) ZIP archive of the named files: local records, central
/// directory, end-of-central-directory record.
pub open spec fn npz_archive(entries: Seq<(Seq<u8>, Seq<u8>)>) -> Seq<u8> {
    let locals = local_records(entries);
    let central = central_records(entries, entries.len());
    let start = locals.len();
    let end = start + central.len();
    locals + central + end_of_central_directory(
        entries.len() as u16,
        ((end as u32) - (start as u32)) as u32,
        start as u32,
    )
}

struct ZipEntry {
    name: Vec<u8>,
    data: Vec<u8>,
    crc: u32,
}

/// A NumPy `.npz` archive being assembled in memory: named `.npy` files, stored uncompressed.
pub struct Npz {
    entries: Vec<ZipEntry>,
}

impl View for Npz {
    /// The files in the order they were added: file name and file bytes.
    type V = Seq<(Seq<u8>, Seq<u8>)>;

    closed spec fn view(&self) -> Seq<(Seq<u8>, Seq<u8>)> {
        self.entries@.map_values(|e: ZipEntry| (e.name@, e.data@))
    }
}

impl Npz {
    #[verifier::type_invariant]
    spec fn checksums_match(&self) -> bool {
        forall|i: int|
            0 <= i < self.entries@.len() ==> #[trigger] self.entries@[i].crc == crc32_of(
                self.entries@[i].data@,
            )
    }

    /// An empty archive.
    pub fn new() -> (npz: Self)
        ensures
            npz@ == Seq::<(Seq<u8>, Seq<u8>)>::empty(),
    {
        let npz = Self { entries: Vec::new() };
        proof {
            assert(npz@ =~= Seq::<(Seq<u8>, Seq<u8>)>::empty());
        }
        npz
    }

    /// Adds the array `data` (the bit patterns of little-endian `f32` values) of the given
    /// shape as the file `name.npy`.
    pub fn add(&mut self, name: &str, shape: &[usize], data: &[u32])
        requires
            npy_file(shape@, data@).len() <= isize::MAX,
        ensures
            final(self)@ == old(self)@.push(
                (name.spec_bytes() + npy_suffix(), npy_file(shape@, data@)),
            ),
    {
        let npy = make_npy(shape, data);
        let crc = crc32(npy.as_slice());
        let mut file_name: Vec<u8> = Vec::new();
        file_name.extend_from_slice(name.as_bytes());
        file_name.extend_from_slice(&[0x2eu8, 0x6eu8, 0x70u8, 0x79u8]);
        proof {
            assert(file_name@ =~= name.spec_bytes() + npy_suffix());
        }
        let entry = ZipEntry { name: file_name, data: npy, crc };
        proof {
            use_type_invariant(&*self);
        }
        let mut entries: Vec<ZipEntry> = Vec::new();
        std::mem::swap(&mut entries, &mut self.entries);
        entries.push(entry);
        self.entries = entries;
        proof {
            assert(self@ =~= old(self)@.push(
                (name.spec_bytes() + npy_suffix(), npy_file(shape@, data@)),
            ));
        }
    }

    /// Whether the archive's central directory size, as the difference of the 32-bit
    /// truncations of its end and its start, is not negative, as `to_bytes` needs. The
    /// lengths are added in 128 bits; an archive longer than that is reported as not fitting.
    pub fn directory_fits(&self) -> (fits: bool)
        ensures
            fits ==> archive_directory_fits(self@),
            local_records(self@).len() + central_records(self@, self@.len()).len() <= u128::MAX
                ==> fits == archive_directory_fits(self@),
    {
        let ghost entries = self@;
        let n = self.entries.len();
        let mut start: u128 = 0;
        let mut central: u128 = 0;
        let mut i: usize = 0;
        while i < n
            invariant
                n == self.entries@.len(),
                entries == self@,
                i <= n,
                start == local_records(entries.take(i as int)).len(),
                central == central_records(entries, i as nat).len(),
            decreases n - i,
        {
            let entry = &self.entries[i];
            let name_len = entry.name.len() as u128;
            let data_len = entry.data.len() as u128;
            proof {
                assert(entries[i as int] == (entry.name@, entry.data@));
                let t = entries.take(i + 1);
                assert(t.drop_last() =~= entries.take(i as int));
                assert(t.last() == entries[i as int]);
                lemma_header_lengths(entry.name@, entry.data@.len() as u32, crc32_of(entry.data@), 0);
                lemma_header_lengths(
                    entry.name@,
                    entry.data@.len() as u32,
                    crc32_of(entry.data@),
                    local_records(entries.take(i as int)).len() as u32,
                );
                assert(local_records(t).len() == local_records(entries.take(i as int)).len() + 30
                    + entry.name@.len() + entry.data@.len());
                assert(central_records(entries, (i + 1) as nat).len() == central_records(
                    entries,
                    i as nat,
                ).len() + 46 + entry.name@.len());
                lemma_records_grow(entries, i as int);
            }
            let next_start = match start.checked_add(30 + name_len + data_len) {
                Some(v) => v,
                None => {
                    return false;
                },
            };
            let next_central = match central.checked_add(46 + name_len) {
                Some(v) => v,
                None => {
                    return false;
                },
            };
            start = next_start;
            central = next_central;
            i = i + 1;
        }
        proof {
            assert(entries.take(n as int) =~= entries);
        }
        let end = match start.checked_add(central) {
            Some(v) => v,
            None => {
                return false;
            },
        };
        (end as u32) >= (start as u32)
    }

    /// The bytes of the archive: every file stored uncompressed, then the central directory.
    /// The directory size is the difference of 32-bit positions, which must not be negative.
    #[verifier::rlimit(40)]
    pub fn to_bytes(&self) -> (archive: Vec<u8>)
        requires
            archive_directory_fits(self@),
        ensures
            archive@ == npz_archive(self@),
    {
        proof {
            use_type_invariant(self);
        }
        let ghost entries = self@;
        let n = self.entries.len();
        let mut out: Vec<u8> = Vec::new();
        let mut offsets: Vec<u32> = Vec::new();
        let mut i: usize = 0;
        while i < n
            invariant
                n == self.entries@.len(),
                entries == self@,
                i <= n,
                out@ == local_records(entries.take(i as int)),
                offsets@.len() == i,
                forall|j: int|
                    0 <= j < i ==> #[trigger] offsets@[j] == local_records(entries.take(j)).len() as u32,
            decreases n - i,
        {
            let entry = &self.entries[i];
            proof {
                use_type_invariant(self);
                assert(entries[i as int] == (entry.name@, entry.data@));
                assert(entry.crc == crc32_of(entry.data@));
            }
            offsets.push(out.len() as u32);
            write_local_header(&mut out, entry.name.as_slice(), entry.data.len() as u32, entry.crc);
            out.extend_from_slice(entry.data.as_slice());
            proof {
                let t = entries.take(i + 1);
                assert(t.drop_last() =~= entries.take(i as int));
                assert(t.last() == entries[i as int]);
                assert(out@ =~= local_records(t));
            }
            i = i + 1;
        }
        proof {
            assert(entries.take(n as int) =~= entries);
        }
        let ghost locals = out@;
        let central_dir_offset = out.len() as u32;
        let mut k: usize = 0;
        while k < n
            invariant
                n == self.entries@.len(),
                entries == self@,
                n == entries.len(),
                locals == local_records(entries),
                k <= n,
                out@ == locals + central_records(entries, k as nat),
                offsets@.len() == n,
                forall|j: int|
                    0 <= j < n ==> #[trigger] offsets@[j] == local_records(entries.take(j)).len() as u32,
            decreases n - k,
        {
            let entry = &self.entries[k];
            proof {
                use_type_invariant(self);
                assert(entries[k as int] == (entry.name@, entry.data@));
                assert(entry.crc == crc32_of(entry.data@));
                assert(offsets@[k as int] == local_records(entries.take(k as int)).len() as u32);
            }
            let ghost before = out@;
            write_central_header(
                &mut out,
                entry.name.as_slice(),
                entry.data.len() as u32,
                entry.crc,
                offsets[k],
            );
            proof {
                let header = central_header(
                    entries[k as int].0,
                    entries[k as int].1.len() as u32,
                    crc32_of(entries[k as int].1),
                    local_records(entries.take(k as int)).len() as u32,
                );
                assert(out@ == before + header);
                assert(central_records(entries, (k + 1) as nat) == central_records(entries, k as nat)
                    + header);
                assert(out@ =~= locals + central_records(entries, (k + 1) as nat));
            }
            k = k + 1;
        }
        let ghost central = central_records(entries, n as nat);
        assert(out@ == locals + central);
        let central_dir_size = out.len() as u32 - central_dir_offset;
        write_eocd(&mut out, n as u16, central_dir_size, central_dir_offset);
        proof {
            assert(out@ == locals + central + end_of_central_directory(
                n as u16,
                central_dir_size,
                central_dir_offset,
            ));
        }
        out
    }
}

/// Header lengths: a local header is 30 bytes and a central one 46, each followed by the
/// file name.
proof fn lemma_header_lengths(name: Seq<u8>, size: u32, crc: u32, offset: u32)
    ensures
        local_header(name, size, crc).len() == 30 + name.len(),
        central_header(name, size, crc, offset).len() == 46 + name.len(),
{
}

/// The local records and the central directory only grow as files are added.
proof fn lemma_records_grow(entries: Seq<(Seq<u8>, Seq<u8>)>, i: int)
    requires
        0 <= i < entries.len(),
    ensures
        local_records(entries.take(i + 1)).len() <= local_records(entries).len(),
        central_records(entries, (i + 1) as nat).len() <= central_records(
            entries,
            entries.len(),
        ).len(),
    decreases entries.len() - i,
{
    if i + 1 < entries.len() {
        lemma_records_grow(entries, i + 1);
        let t = entries.take(i + 2);
        assert(t.drop_last() =~= entries.take(i + 1));
        lemma_header_lengths(t.last().0, t.last().1.len() as u32, crc32_of(t.last().1), 0);
        lemma_header_lengths(
            entries[i + 1].0,
            entries[i + 1].1.len() as u32,
            crc32_of(entries[i + 1].1),
            local_records(entries.take(i + 1)).len() as u32,
        );
    } else {
        assert(entries.take(i + 1) =~= entries);
    }
}

/// The name an array file is read back under: its file name without a `.npy` suffix.
pub open spec fn npz_key(name: Seq<u8>) -> Seq<u8> {
    if name.len() >= 4 && name.subrange(name.len() - 4, name.len() as int) == npy_suffix() {
        name.subrange(0, name.len() - 4)
    } else {
        name
    }
}

/// An array read from an archive: its name and its shape and values.
pub type NpzArray = (Seq<u8>, (Seq<usize>, Seq<u32>));

/// Whether `b` ends with an end-of-central-directory record (without comment).
pub open spec fn npz_is_zip(b: Seq<u8>) -> bool {
    b.len() >= 22 && u32_at(b, b.len() - 22) == END_OF_CENTRAL_DIRECTORY_SIGNATURE
}

/// Where the central directory header after the one at `pos` starts.
pub open spec fn central_next(b: Seq<u8>, pos: int) -> int {
    pos + 46 + u16_at(b, pos + 28) + u16_at(b, pos + 30) + u16_at(b, pos + 32)
}

/// What the central directory header at `pos` yields: `None` when it, its local header or its
/// file reaches past the end of `b`; otherwise the array of its file, or nothing when the local
/// header lacks its signature or the file does not read as a `.npy` array.
#[verifier::opaque]
pub open spec fn central_entry(b: Seq<u8>, pos: int) -> Option<Option<NpzArray>> {
    let name_len = u16_at(b, pos + 28) as int;
    let local = u32_at(b, pos + 42) as int;
    if pos + 46 > b.len() || pos + 46 + name_len > b.len() || local + 4 > b.len() {
        None
    } else if u32_at(b, local) != LOCAL_HEADER_SIGNATURE {
        Some(None)
    } else if local + 30 > b.len() {
        None
    } else {
        let data_start = local + 30 + u16_at(b, local + 26) + u16_at(b, local + 28);
        let data_end = data_start + u32_at(b, local + 18);
        if data_end > b.len() || npy_header_cut_short(b.subrange(data_start, data_end)) {
            None
        } else {
            match npy_contents(b.subrange(data_start, data_end)) {
                None => Some(None),
                Some(array) => Some(Some((npz_key(b.subrange(pos + 46, pos + 46 + name_len)), array))),
            }
        }
    }
}

/// The arrays read from at most `remaining` central directory headers starting at `pos`, or
/// `None` when a header reaches past the end of `b`. Reading stops at the first header without
/// the central signature.
pub open spec fn central_arrays(b: Seq<u8>, pos: int, remaining: nat) -> Option<Seq<NpzArray>>
    decreases remaining,
{
    if remaining == 0 {
        Some(seq![])
    } else if pos + 4 > b.len() {
        None
    } else if u32_at(b, pos) != CENTRAL_HEADER_SIGNATURE {
        Some(seq![])
    } else {
        match central_entry(b, pos) {
            None => None,
            Some(entry) => match central_arrays(b, central_next(b, pos), (remaining - 1) as nat) {
                None => None,
                Some(rest) => Some(
                    match entry {
                        Some(array) => seq![array] + rest,
                        None => rest,
                    },
                ),
            },
        }
    }
}

/// The arrays of an archive: the headers that the end-of-central-directory record counts,
/// from the offset it gives.
pub open spec fn npz_arrays(b: Seq<u8>) -> Option<Seq<NpzArray>> {
    central_arrays(b, u32_at(b, b.len() - 22 + 16) as int, u16_at(b, b.len() - 22 + 10) as nat)
}

/// The error for bytes that do not end with an end-of-central-directory record.
#[derive(Clone, Copy, Debug, PartialEq, Eq, Structural)]
pub struct NotZipError;

/// An array read from an `.npz` archive.
#[derive(Debug, PartialEq, Eq)]
pub struct NpzEntry {
    /// The file name without its `.npy` suffix.
    pub key: Vec<u8>,
    pub array: NpyArray,
}

/// What an entry stands for.
pub open spec fn entry_view(e: NpzEntry) -> NpzArray {
    (e.key@, (e.array.shape@, e.array.data@))
}

/// What a list of entries stands for.
#[verifier::opaque]
pub open spec fn entry_views(v: Seq<NpzEntry>) -> Seq<NpzArray> {
    v.map_values(|e: NpzEntry| entry_view(e))
}

proof fn lemma_entry_views_push(v: Seq<NpzEntry>, e: NpzEntry)
    ensures
        entry_views(v.push(e)) == entry_views(v).push(entry_view(e)),
        entry_views(Seq::<NpzEntry>::empty()) == Seq::<NpzArray>::empty(),
{
    reveal(entry_views);
    assert(entry_views(v.push(e)) =~= entry_views(v).push(entry_view(e)));
    assert(entry_views(Seq::<NpzEntry>::empty()) =~= Seq::<NpzArray>::empty());
}

/// Removes a `.npy` suffix from a file name.
fn strip_npy_suffix(name: &[u8]) -> (key: Vec<u8>)
    ensures
        key@ == npz_key(name@),
{
    let n = name.len();
    let has_suffix = n >= 4 && name[n - 4] == 0x2eu8 && name[n - 3] == 0x6eu8 && name[n - 2]
        == 0x70u8 && name[n - 1] == 0x79u8;
    proof {
        if n >= 4 {
            let tail = name@.subrange(n - 4, n as int);
            if has_suffix {
                assert(tail =~= npy_suffix());
            } else {
                assert(tail != npy_suffix() ==> true);
                if tail == npy_suffix() {
                    assert(tail[0] == name@[n - 4]);
                    assert(tail[1] == name@[n - 3]);
                    assert(tail[2] == name@[n - 2]);
                    assert(tail[3] == name@[n - 1]);
                }
            }
        }
    }
    let mut key: Vec<u8> = Vec::new();
    if has_suffix {
        key.extend_from_slice(slice_range(name, 0, n - 4));
    } else {
        key.extend_from_slice(name);
    }
    proof {
        assert(key@ =~= npz_key(name@));
    }
    key
}

/// Reads the central directory header at `pos` and the file it points at.
fn read_central_entry(b: &[u8], pos: usize) -> (read: (usize, Option<NpzEntry>))
    requires
        b@.len() <= isize::MAX,
        pos + 4 <= b@.len(),
        central_entry(b@, pos as int) is Some,
    ensures
        read.0 == central_next(b@, pos as int),
        match central_entry(b@, pos as int).unwrap() {
            Some(array) => read.1 matches Some(e) && entry_view(e) == array,
            None => read.1 is None,
        },
{
    reveal(central_entry);
    let name_len = r16(b, pos + 28) as usize;
    let extra_len = r16(b, pos + 30) as usize;
    let comment_len = r16(b, pos + 32) as usize;
    let local = r32(b, pos + 42) as usize;
    let name = slice_range(b, pos + 46, pos + 46 + name_len);
    let next = pos + 46 + name_len + extra_len + comment_len;
    if r32(b, local) != LOCAL_HEADER_SIGNATURE {
        return (next, None);
    }
    let local_name_len = r16(b, local + 26) as usize;
    let local_extra_len = r16(b, local + 28) as usize;
    let size = r32(b, local + 18) as usize;
    let data_start = local + 30 + local_name_len + local_extra_len;
    let file = slice_range(b, data_start, data_start + size);
    match parse_npy(file) {
        None => (next, None),
        Some(array) => {
            let key = strip_npy_suffix(name);
            (next, Some(NpzEntry { key, array }))
        },
    }
}

/// Whether the central directory header at `pos`, its local header and its file lie
/// within `b`, so that they can be read.
fn central_entry_fits(b: &[u8], pos: usize) -> (fits: bool)
    requires
        b@.len() <= isize::MAX,
        pos + 4 <= b@.len(),
    ensures
        fits == (central_entry(b@, pos as int) is Some),
{
    reveal(central_entry);
    let n = b.len();
    if n - pos < 46 {
        return false;
    }
    let name_len = r16(b, pos + 28) as usize;
    if n - pos - 46 < name_len {
        return false;
    }
    let local = r32(b, pos + 42) as usize;
    if local > n || n - local < 4 {
        return false;
    }
    if r32(b, local) != LOCAL_HEADER_SIGNATURE {
        return true;
    }
    if n - local < 30 {
        return false;
    }
    let data_start = local + 30 + r16(b, local + 26) as usize + r16(b, local + 28) as usize;
    let size = r32(b, local + 18) as usize;
    if data_start > n || n - data_start < size {
        return false;
    }
    npy_header_fits(slice_range(b, data_start, data_start + size))
}

/// Whether `read_npz` can read `b`: true unless `b` is a ZIP archive one of whose counted
/// central directory headers, local headers or files reaches past its end.
pub fn npz_readable(b: &[u8]) -> (readable: bool)
    requires
        b@.len() <= isize::MAX,
    ensures
        readable == (npz_is_zip(b@) ==> npz_arrays(b@) is Some),
{
    let n = b.len();
    if n < 22 || r32(b, n - 22) != END_OF_CENTRAL_DIRECTORY_SIGNATURE {
        return true;
    }
    let count = r16(b, n - 22 + 10) as usize;
    let mut pos: usize = r32(b, n - 22 + 16) as usize;
    let mut k: usize = 0;
    while k < count
        invariant
            n == b@.len(),
            n <= isize::MAX,
            npz_is_zip(b@),
            k <= count,
            (npz_arrays(b@) is Some) == (central_arrays(b@, pos as int, (count - k) as nat) is Some),
        decreases count - k,
    {
        if pos > n || n - pos < 4 {
            return false;
        }
        if r32(b, pos) != CENTRAL_HEADER_SIGNATURE {
            return true;
        }
        if !central_entry_fits(b, pos) {
            return false;
        }
        proof {
            reveal(central_entry);
        }
        let name_len = r16(b, pos + 28) as usize;
        let extra_len = r16(b, pos + 30) as usize;
        let comment_len = r16(b, pos + 32) as usize;
        pos = pos + 46 + name_len + extra_len + comment_len;
        k = k + 1;
    }
    true
}

/// Reads the `.npy` arrays of an `.npz` archive, in the order of its central directory.
pub fn read_npz(b: &[u8]) -> (arrays: Result<Vec<NpzEntry>, NotZipError>)
    requires
        b@.len() <= isize::MAX,
        npz_is_zip(b@) ==> npz_arrays(b@) is Some,
    ensures
        !npz_is_zip(b@) ==> arrays == Err::<Vec<NpzEntry>, NotZipError>(NotZipError),
        npz_is_zip(b@) ==> (arrays matches Ok(v) && entry_views(v@)
            == npz_arrays(b@).unwrap()),
{
    let n = b.len();
    if n < 22 || r32(b, n - 22) != END_OF_CENTRAL_DIRECTORY_SIGNATURE {
        return Err(NotZipError);
    }
    let cd_offset = r32(b, n - 22 + 16) as usize;
    let count = r16(b, n - 22 + 10) as usize;
    let ghost all = npz_arrays(b@).unwrap();
    let mut result: Vec<NpzEntry> = Vec::new();
    let mut pos: usize = cd_offset;
    let mut k: usize = 0;
    proof {
        lemma_entry_views_push(result@, arbitrary());
        assert(all =~= entry_views(result@) + all);
    }
    while k < count
        invariant
            n == b@.len(),
            n <= isize::MAX,
            npz_is_zip(b@),
            all == npz_arrays(b@).unwrap(),
            k <= count,
            central_arrays(b@, pos as int, (count - k) as nat) is Some,
            all == entry_views(result@) + central_arrays(
                b@,
                pos as int,
                (count - k) as nat,
            ).unwrap(),
        decreases count - k,
    {
        let ghost remaining = (count - k) as nat;
        let ghost before = entry_views(result@);
        if pos > n || n - pos < 4 || r32(b, pos) != CENTRAL_HEADER_SIGNATURE {
            proof {
                assert(central_arrays(b@, pos as int, remaining) == Some(Seq::<NpzArray>::empty()));
                assert(all =~= entry_views(result@));
            }
            return Ok(result);
        }
        let ghost rest = central_arrays(b@, central_next(b@, pos as int), (remaining - 1) as nat);
        let (next, entry) = read_central_entry(b, pos);
        match entry {
            None => {},
            Some(e) => {
                let ghost old_result = result@;
                result.push(e);
                proof {
                    lemma_entry_views_push(old_result, e);
                }
            },
        }
        proof {
            assert(all =~= entry_views(result@) + rest.unwrap());
        }
        pos = next;
        k = k + 1;
    }
    proof {
        assert(all =~= entry_views(result@));
    }
    Ok(result)
}

} // verus!
