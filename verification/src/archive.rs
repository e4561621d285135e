//! Zip archives in memory, as the `zip` crate reads them.
use std::io::Cursor;
use std::io::Read;
use vstd::prelude::*;
use zip::read::ZipFile;
use zip::result::ZipError;
use zip::ZipArchive;

verus! {

/// `zip::ZipArchive`, an archive whose directory has been read.
#[verifier::external_type_specification]
#[verifier::external_body]
#[verifier::reject_recursive_types(R)]
pub struct ExZipArchive<R>(ZipArchive<R>);

/// `std::io::Cursor`, a reader of data in memory.
#[verifier::external_type_specification]
#[verifier::external_body]
#[verifier::reject_recursive_types(T)]
pub struct ExCursor<T>(Cursor<T>);

/// `zip::read::ZipFile`, an entry of an archive that is being read.
#[verifier::external_type_specification]
#[verifier::external_body]
pub struct ExZipFile<'a>(ZipFile<'a>);

/// `zip::result::ZipError`, why an archive or an entry could not be opened.
#[verifier::external_type_specification]
#[verifier::external_body]
pub struct ExZipError(ZipError);

/// `ZipArchive::new` takes these bytes for an archive.
pub uninterp spec fn is_archive(bytes: Seq<u8>) -> bool;

/// The names that `ZipArchive::file_names` gives for the archive in these bytes.
pub uninterp spec fn archive_names(bytes: Seq<u8>) -> Set<Seq<char>>;

/// The size that the directory of the archive in these bytes has for the entry of
/// this name, where `ZipArchive::by_name` opens one.
pub uninterp spec fn archive_entry(bytes: Seq<u8>, name: Seq<char>) -> Option<u64>;

/// The data of the entry of this name in the archive in these bytes, where it can
/// be read to its end and has the checksum that it should.
pub uninterp spec fn archive_data(bytes: Seq<u8>, name: Seq<char>) -> Option<Seq<u8>>;

/// The bytes that an archive was opened from.
pub uninterp spec fn archive_bytes(archive: ZipArchive<Cursor<Box<[u8]>>>) -> Seq<u8>;

/// The size that the directory of the archive has for an entry.
pub uninterp spec fn entry_size(entry: ZipFile) -> u64;

/// The entry stands for a directory.
pub uninterp spec fn entry_is_dir(entry: ZipFile) -> bool;

/// What is left to read of an entry, where it can be read to its end and has the
/// checksum that it should.
pub uninterp spec fn entry_rest(entry: ZipFile) -> Option<Seq<u8>>;

/// The archive that an entry is read from, the name that it was looked up by, and the
/// lengths of the reads that have been made of it, one after the other.
pub struct Reading {
    pub bytes: Seq<u8>,
    pub name: Seq<char>,
    pub lens: Seq<int>,
}

/// What has been read of an entry so far.
pub uninterp spec fn entry_reading(entry: ZipFile) -> Reading;

/// What the last of several reads of these lengths, one after the other, gives of the
/// entry of this name in the archive in these bytes, where it and those before it do
/// not fail.
pub uninterp spec fn read_outcome(bytes: Seq<u8>, name: Seq<char>, lens: Seq<int>) -> Option<
    Seq<u8>,
>;

/// Names of directories end in a slash, or in a backslash.
pub open spec fn is_dir_name(name: Seq<char>) -> bool {
    name.len() > 0 && (name.last() == '/' || name.last() == '\\')
}

/// Two bytes as a number, the lower one first.
pub open spec fn short_at(bytes: Seq<u8>, i: int) -> int {
    bytes[i] + 256 * bytes[i + 1]
}

/// Four bytes as a number, the lower ones first.
pub open spec fn int_at(bytes: Seq<u8>, i: int) -> int {
    short_at(bytes, i) + 0x1_0000 * short_at(bytes, i + 2)
}

/// Eight bytes as a number, the lower ones first.
pub open spec fn long_at(bytes: Seq<u8>, i: int) -> int {
    int_at(bytes, i) + 0x1_0000_0000 * int_at(bytes, i + 4)
}

/// A record of this kind starts at `i`.
pub open spec fn is_record(bytes: Seq<u8>, i: int, a: u8, b: u8) -> bool {
    bytes[i] == 0x50 && bytes[i + 1] == 0x4b && bytes[i + 2] == a && bytes[i + 3] == b
}

/// The last place from `low` up to `i` where a record of this kind starts.
pub open spec fn last_record(bytes: Seq<u8>, low: int, i: int, a: u8, b: u8) -> Option<int>
    decreases i + 1,
{
    if i < 0 || i < low {
        None
    } else if is_record(bytes, i, a, b) {
        Some(i)
    } else {
        last_record(bytes, low, i - 1, a, b)
    }
}

/// The first place from `i` up to `high` where a record of this kind starts.
pub open spec fn first_record(bytes: Seq<u8>, i: int, high: int, a: u8, b: u8) -> Option<int>
    decreases high + 1 - i,
{
    if i > high {
        None
    } else if is_record(bytes, i, a, b) {
        Some(i)
    } else {
        first_record(bytes, i + 1, high, a, b)
    }
}

/// Where the directory of an archive starts, and how many bytes stand before the
/// archive, which all its offsets leave out.
pub struct Directory {
    pub start: int,
    pub shift: int,
}

/// The directory of the archive in these bytes, as the record at the end of the
/// archive tells it, or the one of 64 bits that a locator before that leads to.
pub open spec fn directory_of(bytes: Seq<u8>) -> Option<Directory> {
    match last_record(bytes, bytes.len() - 65557, bytes.len() - 22, 5, 6) {
        None => None,
        Some(end) => {
            let locator = bytes.len() - 42 - short_at(bytes, end + 20);
            let size = int_at(bytes, end + 12);
            let offset = int_at(bytes, end + 16);
            if end + 22 + short_at(bytes, end + 20) > bytes.len() {
                None
            } else if locator >= 0 && is_record(bytes, locator, 6, 7) {
                let nominal = long_at(bytes, locator + 8);
                match first_record(bytes, nominal, end - 60, 6, 6) {
                    None => None,
                    Some(far_end) => Some(
                        Directory {
                            start: long_at(bytes, far_end + 48) + (far_end - nominal),
                            shift: far_end - nominal,
                        },
                    ),
                }
            } else if size + offset > end {
                None
            } else {
                Some(Directory { start: end - size, shift: end - size - offset })
            }
        },
    }
}

/// An entry of a directory may stand at `i`, and its offset is all ones, so that it
/// has to be looked for among its extra data.
pub open spec fn is_far_entry(bytes: Seq<u8>, i: int) -> bool {
    &&& 0 <= i
    &&& i + 46 <= bytes.len()
    &&& is_record(bytes, i, 1, 2)
    &&& int_at(bytes, i + 42) == 0xffff_ffff
}

/// The offset of the entry at `i` may stand at `k`: in the extra data of the entry,
/// which follows its name, and in a field of 64 bit numbers there, of which two others
/// may come before it.
pub open spec fn is_far_offset(bytes: Seq<u8>, i: int, k: int) -> bool {
    let extra = i + 46 + short_at(bytes, i + 28);
    &&& k + 8 <= extra + short_at(bytes, i + 30)
    &&& k + 8 <= bytes.len()
    &&& {
        ||| extra <= k - 4 && short_at(bytes, k - 4) == 1
        ||| extra <= k - 12 && short_at(bytes, k - 12) == 1
        ||| extra <= k - 20 && short_at(bytes, k - 20) == 1
    }
}

/// The offsets of 64 bits that entries of the directory may have still fit in 64 bits
/// once the bytes before the archive are added.
pub open spec fn offsets_fit(bytes: Seq<u8>) -> bool {
    match directory_of(bytes) {
        None => true,
        Some(directory) => forall|i: int, k: int|
            directory.start <= i && is_far_entry(bytes, i) && #[trigger] is_far_offset(bytes, i, k)
                ==> long_at(bytes, k) + directory.shift <= u64::MAX,
    }
}

fn short_of(data: &[u8], i: usize) -> (n: usize)
    requires
        i + 2 <= data@.len() <= usize::MAX,
    ensures
        n == short_at(data@, i as int),
        n <= 0xffff,
{
    data[i] as usize + 256 * data[i + 1] as usize
}

fn int_of(data: &[u8], i: usize) -> (n: u64)
    requires
        i + 4 <= data@.len() <= usize::MAX,
    ensures
        n == int_at(data@, i as int),
        n <= 0xffff_ffff,
{
    short_of(data, i) as u64 + 0x1_0000 * short_of(data, i + 2) as u64
}

fn long_of(data: &[u8], i: usize) -> (n: u64)
    requires
        i + 8 <= data@.len() <= usize::MAX,
    ensures
        n == long_at(data@, i as int),
{
    int_of(data, i) + 0x1_0000_0000 * int_of(data, i + 4)
}

fn starts_record(data: &[u8], i: usize, a: u8, b: u8) -> (yes: bool)
    requires
        i + 4 <= data@.len(),
    ensures
        yes == is_record(data@, i as int, a, b),
{
    data[i] == 0x50 && data[i + 1] == 0x4b && data[i + 2] == a && data[i + 3] == b
}

/// Finds the record at the end of an archive.
fn find_end(data: &[u8]) -> (end: Option<usize>)
    ensures
        match end {
            Some(end) => {
                &&& last_record(data@, data@.len() - 65557, data@.len() - 22, 5, 6) == Some(
                    end as int,
                )
                &&& end + 22 <= data@.len()
            },
            None => last_record(data@, data@.len() - 65557, data@.len() - 22, 5, 6) is None,
        },
{
    let len: usize = data.len();
    if len < 22 {
        return None;
    }
    let low: usize = if len < 65557 {
        0
    } else {
        len - 65557
    };
    let mut i: usize = len - 22;
    loop
        invariant
            len == data@.len(),
            low <= i <= len - 22,
            low == if len < 65557 {
                0
            } else {
                len - 65557
            },
            last_record(data@, len - 65557, len - 22, 5, 6) == last_record(
                data@,
                len - 65557,
                i as int,
                5,
                6,
            ),
        decreases i,
    {
        if starts_record(data, i, 5, 6) {
            return Some(i);
        }
        if i == low {
            assert(last_record(data@, len - 65557, i - 1, 5, 6) is None);
            return None;
        }
        i = i - 1;
    }
}

/// Finds the record of 64 bits at the end of an archive.
fn find_far_end(data: &[u8], nominal: usize, high: usize) -> (end: Option<usize>)
    requires
        high + 60 <= data@.len() <= usize::MAX,
    ensures
        match end {
            Some(end) => {
                &&& first_record(data@, nominal as int, high as int, 6, 6) == Some(end as int)
                &&& nominal <= end <= high
            },
            None => first_record(data@, nominal as int, high as int, 6, 6) is None,
        },
{
    let mut i: usize = nominal;
    while i <= high
        invariant
            high + 60 <= data@.len() <= usize::MAX,
            nominal <= i,
            first_record(data@, nominal as int, high as int, 6, 6) == first_record(
                data@,
                i as int,
                high as int,
                6,
                6,
            ),
        decreases high + 1 - i,
    {
        if starts_record(data, i, 6, 6) {
            return Some(i);
        }
        i = i + 1;
    }
    None
}

/// Where a directory starts in data, and how many bytes stand before the archive.
struct Place {
    start: usize,
    shift: usize,
}

/// Finds the directory of an archive, unless it starts behind the data.
fn find_directory(data: &[u8]) -> (place: Option<Place>)
    ensures
        match place {
            Some(place) => {
                &&& directory_of(data@) == Some(
                    Directory { start: place.start as int, shift: place.shift as int },
                )
                &&& place.start < data@.len()
            },
            None => directory_of(data@) matches Some(directory) ==> directory.start >= data@.len(),
        },
{
    let len: usize = data.len();
    let end: usize = match find_end(data) {
        Some(end) => end,
        None => {
            return None;
        },
    };
    let comment: usize = short_of(data, end + 20);
    if len - end - 22 < comment {
        return None;
    }
    if len - 22 - comment >= 20 && starts_record(data, len - 42 - comment, 6, 7) {
        let nominal: u64 = long_of(data, len - 42 - comment + 8);
        if end < 60 || nominal > (end - 60) as u64 {
            assert(first_record(data@, nominal as int, end - 60, 6, 6) is None);
            return None;
        }
        match find_far_end(data, nominal as usize, end - 60) {
            None => None,
            Some(far_end) => {
                let shift: usize = far_end - nominal as usize;
                let start: u64 = long_of(data, far_end + 48);
                if start >= (len - shift) as u64 {
                    None
                } else {
                    Some(Place { start: start as usize + shift, shift })
                }
            },
        }
    } else {
        let size: u64 = int_of(data, end + 12);
        let offset: u64 = int_of(data, end + 16);
        if size + offset > end as u64 {
            None
        } else {
            Some(Place { start: end - size as usize, shift: end - size as usize - offset as usize })
        }
    }
}

/// Tells whether the offset of the entry at `i` fits, wherever it may stand.
fn entry_fits(data: &[u8], i: usize, shift: usize) -> (b: bool)
    requires
        is_far_entry(data@, i as int),
        shift <= u64::MAX,
    ensures
        b == forall|k: int|
            #[trigger] is_far_offset(data@, i as int, k) ==> long_at(data@, k) + shift <= u64::MAX,
{
    let len: usize = data.len();
    let most: u64 = u64::MAX - shift as u64;
    let name: usize = short_of(data, i + 28);
    let extra: usize = short_of(data, i + 30);
    if len - i - 46 < name {
        return true;
    }
    let start: usize = i + 46 + name;
    let mut k: usize = start;
    while len - k >= 8 && k - start + 8 <= extra
        invariant
            is_far_entry(data@, i as int),
            len == data@.len(),
            most == u64::MAX - shift,
            name == short_at(data@, i + 28),
            extra == short_at(data@, i + 30),
            extra <= 0xffff,
            start == i + 46 + name,
            start <= k <= len,
            k - start <= extra,
            forall|j: int|
                j < k && #[trigger] is_far_offset(data@, i as int, j) ==> long_at(data@, j) + shift
                    <= u64::MAX,
        decreases len - k,
    {
        let in_field: bool = (k - start >= 4 && short_of(data, k - 4) == 1) || (k - start >= 12
            && short_of(data, k - 12) == 1) || (k - start >= 20 && short_of(data, k - 20) == 1);
        assert(in_field == is_far_offset(data@, i as int, k as int));
        if in_field && long_of(data, k) > most {
            return false;
        }
        k = k + 1;
    }
    true
}

/// Tells whether the offsets in these bytes fit.
pub fn check_offsets(data: &[u8]) -> (b: bool)
    ensures
        b == offsets_fit(data@),
{
    let len: usize = data.len();
    let place: Place = match find_directory(data) {
        Some(place) => place,
        None => {
            return true;
        },
    };
    let start: usize = place.start;
    let shift: usize = place.shift;
    let mut i: usize = start;
    while len - i >= 46
        invariant
            len == data@.len(),
            start <= i <= len,
            directory_of(data@) == Some(
                Directory { start: start as int, shift: shift as int },
            ),
            forall|j: int, k: int|
                start <= j < i && is_far_entry(data@, j) && #[trigger] is_far_offset(data@, j, k)
                    ==> long_at(data@, k) + shift <= u64::MAX,
        decreases len - i,
    {
        if starts_record(data, i, 1, 2) && int_of(data, i + 42) == 0xffff_ffff {
            if !entry_fits(data, i, shift) {
                return false;
            }
        }
        i = i + 1;
    }
    true
}

/// `ZipArchive::new` on borrowed bytes, of which only the outcome is kept. Whether
/// bytes are an archive depends on nothing else.
///
/// The crate adds the number of bytes before the archive to the offset of each entry,
/// without looking whether the sum fits in 64 bits. Bytes on which it could fail to do
/// so are not admitted.
#[verifier::external_body]
pub(crate) fn opens(data: &[u8]) -> (b: bool)
    requires
        offsets_fit(data@),
    ensures
        b == is_archive(data@),
{
    ZipArchive::new(Cursor::new(data)).is_ok()
}

/// `ZipArchive::new` on bytes that the archive keeps. What is said of offsets at
/// [`opens`] holds here too.
#[verifier::external_body]
pub(crate) fn open_archive(data: Box<[u8]>) -> (archive: Result<
    ZipArchive<Cursor<Box<[u8]>>>,
    ZipError,
>)
    requires
        offsets_fit(data@),
    ensures
        archive is Ok <==> is_archive(data@),
        archive matches Ok(archive) ==> archive_bytes(archive) == data@,
{
    ZipArchive::new(Cursor::new(data))
}

/// `ZipArchive::file_names`, which goes through a map from names to entries: each
/// name comes once, in no order that could be told.
#[verifier::external_body]
pub(crate) fn file_names(archive: &ZipArchive<Cursor<Box<[u8]>>>) -> (names: Vec<String>)
    ensures
        crate::text::texts(names@).no_duplicates(),
        crate::text::texts(names@).to_set() == archive_names(archive_bytes(*archive)),
{
    archive.file_names().map(|name| name.to_owned()).collect()
}

/// `ZipArchive::by_name`, which looks a name up in the directory of the archive
/// and opens its entry at the start of its data. It fails where there is no entry
/// of that name, and where the entry is encrypted, is packed in a way that the
/// crate does not know, or is not where the directory says. The archive keeps its
/// bytes.
#[verifier::external_body]
pub(crate) fn by_name<'a>(archive: &'a mut ZipArchive<Cursor<Box<[u8]>>>, name: &str) -> (entry:
    Result<ZipFile<'a>, ZipError>)
    ensures
        archive_bytes(*final(archive)) == archive_bytes(*old(archive)),
        entry is Ok <==> archive_entry(archive_bytes(*old(archive)), name@) is Some,
        entry matches Ok(entry) ==> {
            &&& archive_entry(archive_bytes(*old(archive)), name@) == Some(entry_size(entry))
            &&& archive_data(archive_bytes(*old(archive)), name@) == entry_rest(entry)
            &&& entry_is_dir(entry) == is_dir_name(name@)
            &&& entry_reading(entry) == (Reading {
                bytes: archive_bytes(*old(archive)),
                name: name@,
                lens: seq![],
            })
        },
{
    archive.by_name(name)
}

/// `ZipFile::is_dir`.
pub assume_specification<'a>[ ZipFile::<'a>::is_dir ](entry: &ZipFile<'a>) -> (b: bool)
    ensures
        b == entry_is_dir(*entry),
;

/// `ZipFile::size`.
pub assume_specification<'a>[ ZipFile::<'a>::size ](entry: &ZipFile<'a>) -> (size: u64)
    ensures
        size == entry_size(*entry),
;

/// `Read::read_to_end` on an entry, which puts what is left of it at the end of
/// `output`. It fails where reading does, or where the checksum is wrong; what
/// `output` then holds is not said.
#[verifier::external_body]
pub(crate) fn read_to_end(entry: &mut ZipFile, output: &mut Vec<u8>) -> (result: Result<
    usize,
    std::io::Error,
>)
    ensures
        result is Ok <==> entry_rest(*old(entry)) is Some,
        result is Ok ==> final(output)@ == old(output)@ + entry_rest(*old(entry))->0,
{
    entry.read_to_end(output)
}

/// `Read::read_exact` on an entry, which fills the bytes of `output` from `from` up
/// to `to` with what comes next. What it gives depends on nothing but the archive, the
/// name of the entry, and the lengths of this read and of those before it. Where the
/// entry can be read to its end, it fails only where fewer bytes are left.
#[verifier::external_body]
pub(crate) fn read_exact(entry: &mut ZipFile, output: &mut Vec<u8>, from: usize, to: usize) -> (result:
    Result<(), std::io::Error>)
    requires
        from <= to <= old(output)@.len(),
    ensures
        final(output)@.len() == old(output)@.len(),
        ({
            let reading = entry_reading(*old(entry));
            let lens = reading.lens.push(to - from);
            match read_outcome(reading.bytes, reading.name, lens) {
                Some(read) => {
                    &&& result is Ok
                    &&& read.len() == to - from
                    &&& final(output)@ == old(output)@.take(from as int) + read + old(
                        output,
                    )@.skip(to as int)
                    &&& entry_reading(*final(entry)) == (Reading { lens, ..reading })
                },
                None => result is Err,
            }
        }),
        entry_rest(*old(entry)) matches Some(rest) ==> {
            &&& result is Ok <==> to - from <= rest.len()
            &&& result is Ok ==> {
                &&& final(output)@ == old(output)@.take(from as int) + rest.take(to - from) + old(
                    output,
                )@.skip(to as int)
                &&& entry_rest(*final(entry)) == Some(rest.skip(to - from))
            }
        },
{
    entry.read_exact(&mut output[from..to])
}

/// Bytes are refused for their offsets only where an entry of a directory may stand in
/// them that has its offset among its extra data, and where eight bytes stand somewhere
/// that are a number which runs past 64 bits with the number of all bytes added.
pub proof fn ordinary_offsets_fit(bytes: Seq<u8>)
    requires
        (forall|i: int|
            0 <= i && i + 46 <= bytes.len() ==> !(#[trigger] bytes[i] == 0x50 && bytes[i + 1]
                == 0x4b && bytes[i + 2] == 1 && bytes[i + 3] == 2 && bytes[i + 42] == 0xff
                && bytes[i + 43] == 0xff && bytes[i + 44] == 0xff && bytes[i + 45] == 0xff)) || (
        forall|k: int|
            0 <= k && k + 8 <= bytes.len() ==> #[trigger] long_at(bytes, k) + bytes.len()
                <= u64::MAX),
    ensures
        offsets_fit(bytes),
{
    if let Some(directory) = directory_of(bytes) {
        lemma_last_record(bytes, bytes.len() - 65557, bytes.len() - 22, 5, 6);
        let end = last_record(bytes, bytes.len() - 65557, bytes.len() - 22, 5, 6)->0;
        let locator = bytes.len() - 42 - short_at(bytes, end + 20);
        lemma_first_record(bytes, long_at(bytes, locator + 8), end - 60, 6, 6);
        assert forall|i: int, k: int|
            directory.start <= i && is_far_entry(bytes, i) && #[trigger] is_far_offset(bytes, i, k)
            implies long_at(bytes, k) + directory.shift <= u64::MAX by {
            assert(int_at(bytes, i + 42) == bytes[i + 42] + 256 * bytes[i + 43] + 0x1_0000
                * bytes[i + 44] + 0x100_0000 * bytes[i + 45]);
            assert(bytes[i] == 0x50);
            assert(0 <= k);
        }
    }
}

proof fn lemma_last_record(bytes: Seq<u8>, low: int, i: int, a: u8, b: u8)
    ensures
        last_record(bytes, low, i, a, b) matches Some(at) ==> 0 <= at <= i,
    decreases i + 1,
{
    if !(i < 0 || i < low) && !is_record(bytes, i, a, b) {
        lemma_last_record(bytes, low, i - 1, a, b);
    }
}

proof fn lemma_first_record(bytes: Seq<u8>, i: int, high: int, a: u8, b: u8)
    ensures
        first_record(bytes, i, high, a, b) matches Some(at) ==> i <= at <= high,
    decreases high + 1 - i,
{
    if i <= high && !is_record(bytes, i, a, b) {
        lemma_first_record(bytes, i + 1, high, a, b);
    }
}

/// Directories are told by how their names end.
pub proof fn names_of_directories_end_in_a_slash(name: Seq<char>)
    ensures
        is_dir_name(name) <==> seq!['/'].is_suffix_of(name) || seq!['\\'].is_suffix_of(name),
{
    if name.len() > 0 {
        let last = name.skip(name.len() - 1);
        assert(last[0] == name.last());
        assert(last =~= seq![name.last()]);
        assert(seq!['/'][0] == '/' && seq!['\\'][0] == '\\');
    }
}

} // verus!
