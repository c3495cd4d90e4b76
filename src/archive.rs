use vstd::prelude::*;
use vstd::utf8::decode_utf8;
use vstd::utf8::valid_utf8;

use crate::error::NSPError;
use crate::read_bytes::le_value;
use crate::read_bytes::null_index;
use crate::read_bytes::ReadBytesExt;

verus! {

/// One record of the entry table.
#[derive(Debug, Clone, Copy, PartialEq, Eq, Structural)]
pub struct FileEntryTable {
    /// Where the file's data starts, counted from the end of the string table.
    pub offset: u64,
    /// How many bytes of data the file has.
    pub size: u64,
    /// Where the file's name starts within the string table.
    pub name_offset: u32,
}

/// One file taken out of an archive: its name and its data.
pub struct NamedFile {
    pub name: String,
    pub data: Vec<u8>,
}

/// A decoded archive: its entry table, and each entry's name and data, in
/// table order.
pub struct NSPFile {
    pub entries: Vec<FileEntryTable>,
    pub files: Vec<NamedFile>,
}

/// A file as the contracts see it: the characters of its name and its bytes.
pub type FileModel = (Seq<char>, Seq<u8>);

impl View for NamedFile {
    type V = FileModel;

    open spec fn view(&self) -> FileModel {
        (self.name@, self.data@)
    }
}

impl View for NSPFile {
    type V = (Seq<FileEntryTable>, Seq<FileModel>);

    open spec fn view(&self) -> (Seq<FileEntryTable>, Seq<FileModel>) {
        (self.entries@, self.files@.map_values(|f: NamedFile| f@))
    }
}

/// The signature that opens every archive: the ASCII text `PFS0`.
pub open spec fn pfs0_magic() -> Seq<u8> {
    seq![0x50u8, 0x46u8, 0x53u8, 0x30u8]
}

/// The entry whose record starts at byte `24 * i` of `table`.
pub open spec fn entry_at(table: Seq<u8>, i: int) -> FileEntryTable {
    FileEntryTable {
        offset: le_value(table.subrange(24 * i, 24 * i + 8)) as u64,
        size: le_value(table.subrange(24 * i + 8, 24 * i + 16)) as u64,
        name_offset: le_value(table.subrange(24 * i + 16, 24 * i + 20)) as u32,
    }
}

/// Names and data of the entries from index `i` on: names are taken from
/// `names` one terminated string at a time, data from `data` one entry's
/// `size` at a time.
pub open spec fn extract_files(
    names: Seq<u8>,
    data: Seq<u8>,
    entries: Seq<FileEntryTable>,
    i: int,
) -> Result<Seq<FileModel>, NSPError>
    decreases entries.len() - i,
{
    if i < 0 || i >= entries.len() {
        Ok(Seq::empty())
    } else {
        let k = null_index(names) as int;
        let size = entries[i].size as int;
        if k == names.len() {
            Err(NSPError::MissingName(i as u32))
        } else if !valid_utf8(names.take(k)) {
            Err(NSPError::InvalidName(i as u32))
        } else if size > data.len() || size > usize::MAX {
            Err(NSPError::TruncatedData(i as u32))
        } else {
            match extract_files(names.skip(k + 1), data.skip(size), entries, i + 1) {
                Ok(rest) => Ok(seq![(decode_utf8(names.take(k)), data.take(size))] + rest),
                Err(e) => Err(e),
            }
        }
    }
}

/// What decoding the archive `u` gives: its entries and its files, or the
/// first error met.
pub open spec fn parse_archive(u: Seq<u8>) -> Result<(Seq<FileEntryTable>, Seq<FileModel>), NSPError> {
    if u.len() < 4 {
        Err(NSPError::TruncatedHeader)
    } else if u.take(4) != pfs0_magic() {
        Err(NSPError::BadMagic)
    } else if u.len() < 16 {
        Err(NSPError::TruncatedHeader)
    } else {
        let count = le_value(u.subrange(4, 8)) as int;
        let names_len = le_value(u.subrange(8, 12)) as int;
        let body = u.skip(16);
        if body.len() < 24 * count {
            Err(NSPError::TruncatedEntry((body.len() / 24) as u32))
        } else {
            let entries = Seq::new(count as nat, |i: int| entry_at(body, i));
            let rest = body.skip(24 * count);
            if rest.len() < names_len {
                Err(NSPError::TruncatedStringTable)
            } else {
                match extract_files(rest.take(names_len), rest.skip(names_len), entries, 0) {
                    Ok(files) => Ok((entries, files)),
                    Err(e) => Err(e),
                }
            }
        }
    }
}

/// `done` put in front of the files of `r`, when `r` succeeded.
pub open spec fn prepend(done: Seq<FileModel>, r: Result<Seq<FileModel>, NSPError>) -> Result<Seq<FileModel>, NSPError> {
    match r {
        Ok(rest) => Ok(done + rest),
        Err(e) => Err(e),
    }
}

proof fn lemma_prepend_one(done: Seq<FileModel>, x: FileModel, r: Result<Seq<FileModel>, NSPError>)
    ensures
        prepend(
            done,
            match r {
                Ok(rest) => Ok(seq![x] + rest),
                Err(e) => Err(e),
            },
        ) == prepend(done.push(x), r),
{
    match r {
        Ok(rest) => {
            assert(done + (seq![x] + rest) =~= done.push(x) + rest);
        },
        Err(_) => {},
    }
}

proof fn lemma_short_record(len: int, i: int)
    requires
        0 <= 24 * i <= len < 24 * i + 24,
    ensures
        len / 24 == i,
{
    assert(len / 24 == i) by (nonlinear_arith)
        requires
            0 <= 24 * i <= len < 24 * i + 24,
    ;
}

proof fn lemma_truncated_entry(u: Seq<u8>, i: int)
    requires
        u.len() >= 16,
        u.take(4) == pfs0_magic(),
        0 <= i < le_value(u.subrange(4, 8)),
        24 * i <= u.len() - 16 < 24 * i + 24,
    ensures
        parse_archive(u) == Err::<(Seq<FileEntryTable>, Seq<FileModel>), NSPError>(
            NSPError::TruncatedEntry(i as u32),
        ),
{
    lemma_short_record(u.len() - 16, i);
}

/// The data bytes that the entries from index `i` on take together.
pub open spec fn data_len(entries: Seq<FileEntryTable>, i: int) -> int
    decreases entries.len() - i,
{
    if i < 0 || i >= entries.len() {
        0
    } else {
        entries[i].size as int + data_len(entries, i + 1)
    }
}

/// How many bytes a decode of `u` reads: header, entry table, string table
/// and the data of every entry. Meaningful where `u` decodes.
pub open spec fn archive_len(u: Seq<u8>) -> int {
    let count = le_value(u.subrange(4, 8)) as int;
    let names_len = le_value(u.subrange(8, 12)) as int;
    16 + 24 * count + names_len + data_len(
        Seq::new(count as nat, |i: int| entry_at(u.skip(16), i)),
        0,
    )
}

/// An archive whose first four bytes are not `PFS0` is refused as such,
/// whatever follows them.
pub proof fn lemma_bad_magic(u: Seq<u8>)
    requires
        u.len() >= 4,
        u.take(4) != pfs0_magic(),
    ensures
        parse_archive(u) == Err::<(Seq<FileEntryTable>, Seq<FileModel>), NSPError>(
            NSPError::BadMagic,
        ),
{
}

proof fn lemma_data_fits(names: Seq<u8>, data: Seq<u8>, entries: Seq<FileEntryTable>, i: int)
    requires
        0 <= i,
        extract_files(names, data, entries, i) is Ok,
    ensures
        data_len(entries, i) <= data.len(),
    decreases entries.len() - i,
{
    if i < entries.len() {
        let k = null_index(names) as int;
        let size = entries[i].size as int;
        lemma_data_fits(names.skip(k + 1), data.skip(size), entries, i + 1);
    }
}

proof fn lemma_short_data(names: Seq<u8>, data: Seq<u8>, entries: Seq<FileEntryTable>, i: int, m: int)
    requires
        0 <= i,
        extract_files(names, data, entries, i) is Ok,
        0 <= m < data_len(entries, i),
    ensures
        extract_files(names, data.take(m), entries, i) is Err,
    decreases entries.len() - i,
{
    if i < entries.len() {
        let k = null_index(names) as int;
        let size = entries[i].size as int;
        lemma_data_fits(names, data, entries, i);
        if m >= size {
            assert(data.take(m).skip(size) =~= data.skip(size).take(m - size));
            lemma_short_data(names.skip(k + 1), data.skip(size), entries, i + 1, m - size);
        }
    }
}

/// A decode that succeeds reads the whole archive: cut short anywhere before
/// its last byte, the same input fails.
pub proof fn lemma_truncated_archive_fails(u: Seq<u8>, n: int)
    requires
        parse_archive(u) is Ok,
        0 <= n < archive_len(u),
    ensures
        parse_archive(u.take(n)) is Err,
{
    let t = u.take(n);
    if u.len() >= 16 {
        let count = le_value(u.subrange(4, 8)) as int;
        let names_len = le_value(u.subrange(8, 12)) as int;
        let rest = u.skip(16).skip(24 * count);
        let entries = Seq::new(count as nat, |i: int| entry_at(u.skip(16), i));
        lemma_data_fits(rest.take(names_len), rest.skip(names_len), entries, 0);
    }
    assert(n < u.len());
    if n >= 16 {
        assert(t.take(4) =~= u.take(4));
        assert(t.subrange(4, 8) =~= u.subrange(4, 8));
        assert(t.subrange(8, 12) =~= u.subrange(8, 12));
        let count = le_value(u.subrange(4, 8)) as int;
        let names_len = le_value(u.subrange(8, 12)) as int;
        let body = u.skip(16);
        let tbody = t.skip(16);
        assert(tbody =~= body.take(n - 16));
        if tbody.len() >= 24 * count {
            let entries = Seq::new(count as nat, |i: int| entry_at(body, i));
            let tentries = Seq::new(count as nat, |i: int| entry_at(tbody, i));
            assert forall|i: int| 0 <= i < count implies tentries[i] == entries[i] by {
                assert(tbody.subrange(24 * i, 24 * i + 8) =~= body.subrange(24 * i, 24 * i + 8));
                assert(tbody.subrange(24 * i + 8, 24 * i + 16) =~= body.subrange(
                    24 * i + 8,
                    24 * i + 16,
                ));
                assert(tbody.subrange(24 * i + 16, 24 * i + 20) =~= body.subrange(
                    24 * i + 16,
                    24 * i + 20,
                ));
            }
            assert(tentries =~= entries);
            let rest = body.skip(24 * count);
            let trest = tbody.skip(24 * count);
            assert(trest =~= rest.take(n - 16 - 24 * count));
            if trest.len() >= names_len {
                assert(trest.take(names_len) =~= rest.take(names_len));
                assert(trest.skip(names_len) =~= rest.skip(names_len).take(
                    n - 16 - 24 * count - names_len,
                ));
                lemma_short_data(
                    rest.take(names_len),
                    rest.skip(names_len),
                    entries,
                    0,
                    n - 16 - 24 * count - names_len,
                );
            }
        }
    }
}

impl NSPFile {
    /// Decodes one archive from `reader`: checks the signature, reads the
    /// header, the entry table and the string table, then pairs each entry,
    /// in table order, with the next name of the string table and with its
    /// `size` bytes of data. Names are taken one after the other from the
    /// string table; each entry's `name_offset` is kept but not followed.
    pub fn read<R: ReadBytesExt>(source: R) -> (r: Result<NSPFile, NSPError>)
        ensures
            match (r, parse_archive(source.unread())) {
                (Ok(archive), Ok(model)) => archive@ == model,
                (Err(e), Err(expected)) => e == expected,
                _ => false,
            },
    {
        let mut reader = source;
        let ghost u = reader.unread();
        let magic = match reader.read_bytes(4) {
            Ok(m) => m,
            Err(_) => return Err(NSPError::TruncatedHeader),
        };
        if !(magic[0] == 0x50 && magic[1] == 0x46 && magic[2] == 0x53 && magic[3] == 0x30) {
            proof {
                if u.take(4) == pfs0_magic() {
                    assert(pfs0_magic()[0] == 0x50 && pfs0_magic()[1] == 0x46);
                    assert(pfs0_magic()[2] == 0x53 && pfs0_magic()[3] == 0x30);
                }
            }
            return Err(NSPError::BadMagic);
        }
        proof {
            assert(u.take(4) =~= pfs0_magic());
        }
        let file_count = match reader.read_u32_le() {
            Ok(v) => v,
            Err(_) => return Err(NSPError::TruncatedHeader),
        };
        let string_table_size = match reader.read_u32_le() {
            Ok(v) => v,
            Err(_) => return Err(NSPError::TruncatedHeader),
        };
        match reader.read_u32_le() {
            Ok(_) => {},
            Err(_) => return Err(NSPError::TruncatedHeader),
        }
        let ghost body = u.skip(16);
        proof {
            assert(u.skip(4).take(4) =~= u.subrange(4, 8));
            assert(u.skip(4).skip(4) =~= u.skip(8));
            assert(u.skip(8).take(4) =~= u.subrange(8, 12));
            assert(u.skip(8).skip(4) =~= u.skip(12));
            assert(u.skip(12).skip(4) =~= body);
        }

        let mut entries: Vec<FileEntryTable> = Vec::new();
        let mut i: u32 = 0;
        while i < file_count
            invariant
                u == source.unread(),
                u.len() >= 16,
                body == u.skip(16),
                u.take(4) == pfs0_magic(),
                file_count == le_value(u.subrange(4, 8)),
                string_table_size == le_value(u.subrange(8, 12)),
                i <= file_count,
                body.len() >= 24 * i,
                reader.unread() == body.skip(24 * i),
                entries@ == Seq::new(i as nat, |j: int| entry_at(body, j)),
            decreases file_count - i,
        {
            let ghost at = 24 * i;
            let ghost before = reader.unread();
            let offset = match reader.read_u64_le() {
                Ok(v) => v,
                Err(_) => {
                    proof {
                        lemma_truncated_entry(u, i as int);
                    }
                    return Err(NSPError::TruncatedEntry(i));
                },
            };
            let size = match reader.read_u64_le() {
                Ok(v) => v,
                Err(_) => {
                    proof {
                        lemma_truncated_entry(u, i as int);
                    }
                    return Err(NSPError::TruncatedEntry(i));
                },
            };
            let name_offset = match reader.read_u32_le() {
                Ok(v) => v,
                Err(_) => {
                    proof {
                        assert(before.len() < 20);
                        lemma_truncated_entry(u, i as int);
                    }
                    return Err(NSPError::TruncatedEntry(i));
                },
            };
            match reader.read_u32_le() {
                Ok(_) => {},
                Err(_) => {
                    proof {
                        lemma_truncated_entry(u, i as int);
                    }
                    return Err(NSPError::TruncatedEntry(i));
                },
            }
            proof {
                assert(before.take(8) =~= body.subrange(at, at + 8));
                assert(before.skip(8).take(8) =~= body.subrange(at + 8, at + 16));
                assert(before.skip(8).skip(8).take(4) =~= body.subrange(at + 16, at + 20));
                assert(before.skip(8).skip(8).skip(4).skip(4) =~= body.skip(at + 24));
            }
            entries.push(FileEntryTable { offset, size, name_offset });
            i = i + 1;
            proof {
                assert(entries@ =~= Seq::new(i as nat, |j: int| entry_at(body, j)));
            }
        }
        let ghost es = entries@;
        let ghost rest = body.skip(24 * file_count);

        let table = match reader.read_bytes(string_table_size as usize) {
            Ok(t) => t,
            Err(_) => return Err(NSPError::TruncatedStringTable),
        };
        let ghost data0 = reader.unread();
        proof {
            assert(es =~= Seq::new(file_count as nat, |j: int| entry_at(body, j)));
            assert(table@ =~= rest.take(string_table_size as int));
            assert(data0 =~= rest.skip(string_table_size as int));
        }
        let mut names: &[u8] = table.as_slice();
        let mut files: Vec<NamedFile> = Vec::new();
        let mut i: u32 = 0;
        while i < file_count
            invariant
                u == source.unread(),
                es.len() == file_count,
                entries@ == es,
                i <= file_count,
                parse_archive(u) == match extract_files(table@, data0, es, 0) {
                    Ok(files) => Ok((es, files)),
                    Err(e) => Err::<(Seq<FileEntryTable>, Seq<FileModel>), NSPError>(e),
                },
                extract_files(table@, data0, es, 0) == prepend(
                    files@.map_values(|f: NamedFile| f@),
                    extract_files(names@, reader.unread(), es, i as int),
                ),
            decreases file_count - i,
        {
            let ghost done = files@.map_values(|f: NamedFile| f@);
            let name = match names.read_string_utf8() {
                Ok(s) => s,
                Err(e) => {
                    return match e {
                        NSPError::UnexpectedEof => Err(NSPError::MissingName(i)),
                        _ => Err(NSPError::InvalidName(i)),
                    };
                },
            };
            let size = entries[i as usize].size;
            if size > usize::MAX as u64 {
                return Err(NSPError::TruncatedData(i));
            }
            let data = match reader.read_bytes(size as usize) {
                Ok(d) => d,
                Err(_) => {
                    return Err(NSPError::TruncatedData(i));
                },
            };
            let file = NamedFile { name, data };
            proof {
                lemma_prepend_one(
                    done,
                    file@,
                    extract_files(names@, reader.unread(), es, i + 1),
                );
            }
            files.push(file);
            i = i + 1;
            proof {
                assert(files@.map_values(|f: NamedFile| f@) =~= done.push(file@));
            }
        }
        proof {
            assert(files@.map_values(|f: NamedFile| f@) + Seq::empty() =~= files@.map_values(
                |f: NamedFile| f@,
            ));
        }
        Ok(NSPFile { entries, files })
    }
}

} // verus!
