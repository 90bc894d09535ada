//! The LGP archive reader.
//!
//! An archive is one byte buffer holding, in order: a 12-byte null-padded
//! creator tag, a 4-byte little-endian member count, that many fixed-width
//! table-of-contents records, the member payloads the records point at,
//! and a trailing terminator tag that runs from the highest byte any
//! member payload reached to the end of the buffer.
//!
//! Parsing is pure and total over the buffer: adversarial or truncated
//! input yields a typed [`ParseError`], never a panic, and no partial
//! archive is ever returned.  Member payloads are copied out of the
//! buffer, so the archive owns its data and outlives the buffer it was
//! read from.  Unusual-but-legal values (odd creator or
//! terminator tags, odd check markers, a table-of-contents name that
//! disagrees with the name stored at the member) are collected as
//! [`Anomaly`] values beside the successful result.

use vstd::prelude::*;
use vstd::slice::{slice_index_get, slice_subrange, slice_to_vec};

use crate::parse::{le16, le32, null_str, read, read_le16, read_le32, spec_null_str, ParseError};

verus! {

/// One named payload extracted from an archive.
pub struct Member {
    /// The member's name, as the table of contents spells it.
    pub name: String,
    /// The member's raw payload bytes.
    pub data: Vec<u8>,
}

/// The mathematical value of a [`Member`].
pub struct MemberModel {
    pub name: Seq<char>,
    pub data: Seq<u8>,
}

impl View for Member {
    type V = MemberModel;

    open spec fn view(&self) -> MemberModel {
        MemberModel { name: self.name@, data: self.data@ }
    }
}

/// A non-fatal oddity noticed while parsing.  Anomalies never abort a
/// parse; they are collected in the order they are found: creator first,
/// then per record (check marker before name mismatch) in record order,
/// then the terminator.
#[derive(Clone, Copy, Debug, PartialEq, Eq, Structural)]
pub enum Anomaly {
    /// The creator tag is neither of the two conventional values.
    UnusualCreator,
    /// Record `entry` carries a check marker other than 0x0E or 0x0B.
    UnusualCheck { entry: usize, check: u8 },
    /// The name stored at record `entry`'s payload differs from the name
    /// in the table of contents.
    NameMismatch { entry: usize },
    /// The terminator tag is neither of the two conventional values.
    UnusualTerminator,
}

/// The parsed contents of one LGP archive.
pub struct LGPFile {
    /// The creator tag, stripped of null padding.  Conventionally
    /// `"SQUARESOFT"` or `"FICEDULA-LGP"`; other values only produce an
    /// [`Anomaly`].
    pub creator: String,
    /// The terminator tag read from the tail of the buffer.
    /// Conventionally `"FINAL FANTASY7"` or `"LGP PATCH FILE"`.
    pub terminator: String,
    /// The members, in table-of-contents order.  Names are unique: a
    /// repeated name aborts the parse instead of overwriting.
    pub files: Vec<Member>,
    /// Everything odd-but-legal that was noticed along the way.
    pub anomalies: Vec<Anomaly>,
}

/// The mathematical value of an [`LGPFile`].
pub struct ArchiveModel {
    pub creator: Seq<char>,
    pub terminator: Seq<char>,
    pub members: Seq<MemberModel>,
    pub anomalies: Seq<Anomaly>,
}

impl View for LGPFile {
    type V = ArchiveModel;

    open spec fn view(&self) -> ArchiveModel {
        ArchiveModel {
            creator: self.creator@,
            terminator: self.terminator@,
            members: members_view(self.files@),
            anomalies: self.anomalies@,
        }
    }
}

/// The member list a vector of [`Member`]s denotes.
pub open spec fn members_view(files: Seq<Member>) -> Seq<MemberModel> {
    files.map_values(|m: Member| m@)
}

/// What one table-of-contents record and the member it points at denote.
pub struct EntryModel {
    /// The name in the table of contents (the key of the member).
    pub name: Seq<char>,
    /// The redundant name stored in front of the payload.
    pub mname: Seq<char>,
    /// The record's 8-bit check marker.
    pub check: u8,
    /// The payload bytes.
    pub data: Seq<u8>,
    /// One past the last byte the payload read reached.
    pub end: int,
}

/// Byte offset of table-of-contents record `i`: records are 27 bytes wide
/// (20-byte name, 4-byte offset, 1-byte check marker, 2-byte conflict
/// marker) and start right after the 16-byte header.
pub open spec fn toc_base(i: int) -> int {
    16 + 27 * i
}

/// Parses table-of-contents record `i` and the member it points at.
/// Mirrors the read order of the parser: record name, record fields, the
/// conflict marker (non-zero is fatal), then at the record's offset the
/// redundant name, the payload length and the payload itself.
pub open spec fn spec_entry(d: Seq<u8>, i: int) -> Result<EntryModel, ParseError> {
    let tb = toc_base(i);
    if tb + 20 > d.len() {
        Err(ParseError::EndOfData)
    } else {
        match spec_null_str(d.subrange(tb, tb + 20)) {
            None => Err(ParseError::InvalidText),
            Some(name) => {
                if tb + 27 > d.len() {
                    Err(ParseError::EndOfData)
                } else {
                    let off = le32(d, tb + 20);
                    let check = d[tb + 24];
                    let conflict = le16(d, tb + 25);
                    if conflict != 0 {
                        Err(ParseError::DuplicateName)
                    } else if off + 20 > d.len() {
                        Err(ParseError::EndOfData)
                    } else {
                        match spec_null_str(d.subrange(off, off + 20)) {
                            None => Err(ParseError::InvalidText),
                            Some(mname) => {
                                if off + 24 > d.len() {
                                    Err(ParseError::EndOfData)
                                } else {
                                    let size = le32(d, off + 20);
                                    if off + 24 + size > d.len() {
                                        Err(ParseError::EndOfData)
                                    } else {
                                        Ok(
                                            EntryModel {
                                                name,
                                                mname,
                                                check,
                                                data: d.subrange(off + 24, off + 24 + size),
                                                end: off + 24 + size,
                                            },
                                        )
                                    }
                                }
                            },
                        }
                    }
                }
            },
        }
    }
}

/// Whether some member of `ms` already carries the name `nm`.
pub open spec fn contains_name(ms: Seq<MemberModel>, nm: Seq<char>) -> bool {
    exists|j: int| 0 <= j < ms.len() && ms[j].name == nm
}

/// The members denoted by the first `n` table-of-contents records, in
/// record order; the first failing record, non-zero conflict marker or
/// repeated name aborts with its error.
pub open spec fn spec_members(d: Seq<u8>, n: int) -> Result<Seq<MemberModel>, ParseError>
    decreases n,
{
    if n <= 0 {
        Ok(Seq::<MemberModel>::empty())
    } else {
        match spec_members(d, n - 1) {
            Err(e) => Err(e),
            Ok(pre) => match spec_entry(d, n - 1) {
                Err(e) => Err(e),
                Ok(ent) => {
                    if contains_name(pre, ent.name) {
                        Err(ParseError::DuplicateName)
                    } else {
                        Ok(pre.push(MemberModel { name: ent.name, data: ent.data }))
                    }
                },
            },
        }
    }
}

/// The highest byte offset reached by any of the first `n` members'
/// payload reads, and at least 16: the terminator tag starts here.
pub open spec fn spec_end(d: Seq<u8>, n: int) -> int
    decreases n,
{
    if n <= 0 {
        16
    } else {
        let prev = spec_end(d, n - 1);
        match spec_entry(d, n - 1) {
            Ok(ent) => if ent.end > prev {
                ent.end
            } else {
                prev
            },
            Err(_) => prev,
        }
    }
}

/// The anomalies the first `n` records contribute, in record order: an
/// unusual check marker first, then a table-of-contents/payload name
/// mismatch.
pub open spec fn spec_entry_anomalies(d: Seq<u8>, n: int) -> Seq<Anomaly>
    decreases n,
{
    if n <= 0 {
        Seq::<Anomaly>::empty()
    } else {
        spec_entry_anomalies(d, n - 1) + match spec_entry(d, n - 1) {
            Ok(ent) => {
                let c = if ent.check != 0x0E && ent.check != 0x0B {
                    seq![Anomaly::UnusualCheck { entry: (n - 1) as usize, check: ent.check }]
                } else {
                    Seq::<Anomaly>::empty()
                };
                let m = if ent.mname != ent.name {
                    seq![Anomaly::NameMismatch { entry: (n - 1) as usize }]
                } else {
                    Seq::<Anomaly>::empty()
                };
                c + m
            },
            Err(_) => Seq::<Anomaly>::empty(),
        }
    }
}

/// The anomaly an unconventional creator tag contributes.
pub open spec fn spec_creator_anomaly(creator: Seq<char>) -> Seq<Anomaly> {
    if creator == "SQUARESOFT"@ || creator == "FICEDULA-LGP"@ {
        Seq::<Anomaly>::empty()
    } else {
        seq![Anomaly::UnusualCreator]
    }
}

/// The anomaly an unconventional terminator tag contributes.
pub open spec fn spec_terminator_anomaly(term: Seq<char>) -> Seq<Anomaly> {
    if term == "FINAL FANTASY7"@ || term == "LGP PATCH FILE"@ {
        Seq::<Anomaly>::empty()
    } else {
        seq![Anomaly::UnusualTerminator]
    }
}

/// What parsing a whole archive buffer yields: the archive value, or the
/// error of the first read, decode or name collision that fails.
pub open spec fn spec_parse(d: Seq<u8>) -> Result<ArchiveModel, ParseError> {
    if d.len() < 12 {
        Err(ParseError::EndOfData)
    } else {
        match spec_null_str(d.subrange(0, 12)) {
            None => Err(ParseError::InvalidText),
            Some(creator) => {
                if d.len() < 16 {
                    Err(ParseError::EndOfData)
                } else {
                    let n = le32(d, 12);
                    match spec_members(d, n) {
                        Err(e) => Err(e),
                        Ok(ms) => {
                            let end = spec_end(d, n);
                            match spec_null_str(d.subrange(end, d.len() as int)) {
                                None => Err(ParseError::InvalidText),
                                Some(term) => Ok(
                                    ArchiveModel {
                                        creator,
                                        terminator: term,
                                        members: ms,
                                        anomalies: spec_creator_anomaly(creator)
                                            + spec_entry_anomalies(d, n)
                                            + spec_terminator_anomaly(term),
                                    },
                                ),
                            }
                        },
                    }
                }
            },
        }
    }
}

/// A failed prefix of the member list stays failed however many more
/// records follow.
proof fn lemma_members_err(d: Seq<u8>, k: int, n: int)
    requires
        k <= n,
        spec_members(d, k) is Err,
    ensures
        spec_members(d, n) == spec_members(d, k),
    decreases n - k,
{
    if k < n {
        lemma_members_err(d, k, n - 1);
    }
}

/// Whether `name` is already the name of one of `files`' members.
fn contains_member(files: &Vec<Member>, name: &String) -> (r: bool)
    ensures
        r == contains_name(members_view(files@), name@),
{
    let mut j: usize = 0;
    while j < files.len()
        invariant
            0 <= j <= files@.len(),
            forall|t: int| 0 <= t < j ==> members_view(files@)[t].name != name@,
        decreases files@.len() - j,
    {
        if files[j].name == *name {
            assert(members_view(files@)[j as int].name == name@);
            return true;
        }
        j = j + 1;
    }
    false
}

impl LGPFile {
    /// Parses one LGP archive out of `data`.
    ///
    /// Returns exactly the archive [`spec_parse`] assigns to the buffer —
    /// creator tag, terminator tag, the members in table-of-contents
    /// order with their payload bytes, and the collected anomalies — and
    /// fails with exactly the error [`spec_parse`] assigns: the result is
    /// a function of the buffer alone.  On success the member list has
    /// one member per declared table-of-contents record and no name
    /// occurs twice.
    #[verifier::rlimit(100)]
    pub fn from_bytes(data: &[u8]) -> (r: Result<LGPFile, ParseError>)
        ensures
            match r {
                Ok(f) => spec_parse(data@) == Ok::<ArchiveModel, ParseError>(f@),
                Err(e) => spec_parse(data@) == Err::<ArchiveModel, ParseError>(e),
            },
            r matches Ok(f) ==> f@.members.len() == le32(data@, 12),
            r matches Ok(f) ==> forall|p: int, q: int|
                0 <= p < q < f@.members.len() ==> f@.members[p].name != f@.members[q].name,
    {
        let n_data = data.len();
        let mut ptr: usize = 0;

        // the 12-byte creator tag
        let creator_field = match read(data, &mut ptr, 12) {
            Ok(s) => s,
            Err(e) => {
                return Err(e);
            },
        };
        let creator = match null_str(creator_field) {
            Ok(s) => s,
            Err(e) => {
                return Err(e);
            },
        };

        // the 4-byte member count
        let count_field = match read(data, &mut ptr, 4) {
            Ok(s) => s,
            Err(e) => {
                return Err(e);
            },
        };
        let file_count = read_le32(count_field, 0);
        assert(file_count as int == le32(data@, 12));

        let mut anomalies: Vec<Anomaly> = Vec::new();
        if !(creator == "SQUARESOFT".to_owned() || creator == "FICEDULA-LGP".to_owned()) {
            anomalies.push(Anomaly::UnusualCreator);
        }
        assert(anomalies@ =~= spec_creator_anomaly(creator@) + spec_entry_anomalies(data@, 0));

        let mut files: Vec<Member> = Vec::new();
        let mut end_of_data: usize = 16;
        let mut i: u32 = 0;
        proof {
            assert(members_view(files@) =~= Seq::<MemberModel>::empty());
        }

        while i < file_count
            invariant
                0 <= i <= file_count,
                n_data == data@.len(),
                16 <= n_data,
                ptr as int == toc_base(i as int),
                ptr <= n_data,
                16 <= end_of_data <= n_data,
                spec_null_str(data@.subrange(0, 12)) == Some(creator@),
                file_count as int == le32(data@, 12),
                spec_members(data@, i as int) == Ok::<Seq<MemberModel>, ParseError>(
                    members_view(files@),
                ),
                spec_end(data@, i as int) == end_of_data as int,
                anomalies@ == spec_creator_anomaly(creator@) + spec_entry_anomalies(
                    data@,
                    i as int,
                ),
            decreases file_count - i,
        {
            let ghost tb = toc_base(i as int);
            let ghost pre_members = members_view(files@);

            // the record's 20-byte name field
            let name_field = match read(data, &mut ptr, 20) {
                Ok(s) => s,
                Err(e) => {
                    proof {
                        lemma_members_err(data@, i + 1, file_count as int);
                    }
                    return Err(e);
                },
            };
            let name = match null_str(name_field) {
                Ok(s) => s,
                Err(e) => {
                    proof {
                        lemma_members_err(data@, i + 1, file_count as int);
                    }
                    return Err(e);
                },
            };

            // offset, check marker and conflict marker
            let off_field = match read(data, &mut ptr, 4) {
                Ok(s) => s,
                Err(e) => {
                    proof {
                        lemma_members_err(data@, i + 1, file_count as int);
                    }
                    return Err(e);
                },
            };
            let offset = read_le32(off_field, 0);
            let check_field = match read(data, &mut ptr, 1) {
                Ok(s) => s,
                Err(e) => {
                    proof {
                        lemma_members_err(data@, i + 1, file_count as int);
                    }
                    return Err(e);
                },
            };
            let check = *slice_index_get(check_field, 0);
            let conflict_field = match read(data, &mut ptr, 2) {
                Ok(s) => s,
                Err(e) => {
                    proof {
                        lemma_members_err(data@, i + 1, file_count as int);
                    }
                    return Err(e);
                },
            };
            let conflict = read_le16(conflict_field, 0);
            assert(offset as int == le32(data@, tb + 20));
            assert(check == data@[tb + 24]);
            assert(conflict as int == le16(data@, tb + 25));

            if check != 0x0E && check != 0x0B {
                anomalies.push(Anomaly::UnusualCheck { entry: i as usize, check });
            }

            // a non-zero conflict marker signals a name collision
            if conflict != 0 {
                proof {
                    lemma_members_err(data@, i + 1, file_count as int);
                }
                return Err(ParseError::DuplicateName);
            }

            // the member the record points at: redundant name, length,
            // payload
            let mut fptr: usize = offset as usize;
            let mname_field = match read(data, &mut fptr, 20) {
                Ok(s) => s,
                Err(e) => {
                    proof {
                        lemma_members_err(data@, i + 1, file_count as int);
                    }
                    return Err(e);
                },
            };
            let mname = match null_str(mname_field) {
                Ok(s) => s,
                Err(e) => {
                    proof {
                        lemma_members_err(data@, i + 1, file_count as int);
                    }
                    return Err(e);
                },
            };
            if !(mname == name) {
                anomalies.push(Anomaly::NameMismatch { entry: i as usize });
            }
            let size_field = match read(data, &mut fptr, 4) {
                Ok(s) => s,
                Err(e) => {
                    proof {
                        lemma_members_err(data@, i + 1, file_count as int);
                    }
                    return Err(e);
                },
            };
            let size = read_le32(size_field, 0);
            assert(size as int == le32(data@, offset + 20));
            let payload = match read(data, &mut fptr, size as usize) {
                Ok(s) => s,
                Err(e) => {
                    proof {
                        lemma_members_err(data@, i + 1, file_count as int);
                    }
                    return Err(e);
                },
            };

            let ghost ent = spec_entry(data@, i as int).unwrap();
            proof {
                assert(spec_entry(data@, i as int) == Ok::<EntryModel, ParseError>(
                    EntryModel {
                        name: name@,
                        mname: mname@,
                        check,
                        data: payload@,
                        end: fptr as int,
                    },
                ));
            }

            // a repeated name is fatal, not an overwrite
            if contains_member(&files, &name) {
                proof {
                    lemma_members_err(data@, i + 1, file_count as int);
                }
                return Err(ParseError::DuplicateName);
            }

            files.push(Member { name, data: slice_to_vec(payload) });
            if fptr > end_of_data {
                end_of_data = fptr;
            }
            proof {
                assert(members_view(files@) =~= pre_members.push(
                    MemberModel { name: ent.name, data: ent.data },
                ));
                assert(anomalies@ =~= spec_creator_anomaly(creator@) + spec_entry_anomalies(
                    data@,
                    i as int + 1,
                ));
            }
            i = i + 1;
        }

        // the terminator tag runs from the furthest payload byte reached
        // to the end of the buffer
        let term_field = slice_subrange(data, end_of_data, n_data);
        let terminator = match null_str(term_field) {
            Ok(s) => s,
            Err(e) => {
                return Err(e);
            },
        };
        if !(terminator == "FINAL FANTASY7".to_owned() || terminator == "LGP PATCH FILE".to_owned())
        {
            anomalies.push(Anomaly::UnusualTerminator);
        }

        proof {
            lemma_members_count(data@, file_count as int);
            lemma_members_unique(data@, file_count as int);
            assert(anomalies@ =~= spec_creator_anomaly(creator@) + spec_entry_anomalies(
                data@,
                file_count as int,
            ) + spec_terminator_anomaly(terminator@));
        }
        Ok(LGPFile { creator, terminator, files, anomalies })
    }
}

impl crate::files::Parse for LGPFile {
    open spec fn spec_parses(data: Seq<u8>) -> bool {
        spec_parse(data) is Ok
    }

    open spec fn spec_parsed(&self, data: Seq<u8>) -> bool {
        spec_parse(data) == Ok::<ArchiveModel, ParseError>(self@)
    }

    open spec fn spec_error(data: Seq<u8>) -> ParseError {
        match spec_parse(data) {
            Err(e) => e,
            Ok(_) => ParseError::UnknownFormat,
        }
    }

    fn from_bytes(data: &[u8]) -> (r: Result<Self, ParseError>) {
        LGPFile::from_bytes(data)
    }
}

/// A successfully parsed member list has exactly one member per declared
/// table-of-contents record.
pub proof fn lemma_members_count(d: Seq<u8>, n: int)
    requires
        0 <= n,
        spec_members(d, n) is Ok,
    ensures
        spec_members(d, n).unwrap().len() == n,
    decreases n,
{
    if n > 0 {
        lemma_members_count(d, n - 1);
    }
}

/// Every record of a successfully parsed member list parsed cleanly.
proof fn lemma_members_entries_ok(d: Seq<u8>, n: int)
    requires
        spec_members(d, n) is Ok,
    ensures
        forall|k: int| 0 <= k < n ==> spec_entry(d, k) is Ok,
    decreases n,
{
    if n > 0 {
        lemma_members_entries_ok(d, n - 1);
    }
}

/// Member `t` of a successfully parsed member list carries the name of
/// table-of-contents record `t`.
proof fn lemma_members_names(d: Seq<u8>, n: int)
    requires
        0 <= n,
        spec_members(d, n) is Ok,
    ensures
        spec_members(d, n).unwrap().len() == n,
        forall|t: int|
            0 <= t < n ==> spec_members(d, n).unwrap()[t].name == spec_entry(d, t).unwrap().name,
    decreases n,
{
    if n > 0 {
        lemma_members_names(d, n - 1);
        let pre = spec_members(d, n - 1).unwrap();
        let ms = spec_members(d, n).unwrap();
        assert(forall|t: int| 0 <= t < n - 1 ==> ms[t] == pre[t]);
    }
}

/// When every record by itself parses cleanly, the only way the member
/// list can fail is a repeated name.
proof fn lemma_members_err_dup(d: Seq<u8>, n: int)
    requires
        forall|k: int| 0 <= k < n ==> spec_entry(d, k) is Ok,
        spec_members(d, n) is Err,
    ensures
        spec_members(d, n) == Err::<Seq<MemberModel>, ParseError>(ParseError::DuplicateName),
    decreases n,
{
    if n > 0 {
        if spec_members(d, n - 1) is Err {
            lemma_members_err_dup(d, n - 1);
        }
    }
}

/// A second table-of-contents record whose name repeats an earlier one
/// makes the whole parse fail with a duplicate-name error — no partial
/// member list comes back — provided every record by itself reads
/// cleanly: its reads stay in bounds, its name fields decode, and its
/// conflict marker is zero.
pub proof fn lemma_duplicate_name_fails(d: Seq<u8>, i: int, j: int)
    requires
        d.len() >= 16,
        spec_null_str(d.subrange(0, 12)) is Some,
        forall|k: int| 0 <= k < le32(d, 12) ==> spec_entry(d, k) is Ok,
        0 <= i < j < le32(d, 12),
        spec_entry(d, i).unwrap().name == spec_entry(d, j).unwrap().name,
    ensures
        spec_parse(d) == Err::<ArchiveModel, ParseError>(ParseError::DuplicateName),
{
    let n = le32(d, 12);
    if spec_members(d, j) is Err {
        lemma_members_err_dup(d, j);
        lemma_members_err(d, j, n);
    } else {
        let pre = spec_members(d, j).unwrap();
        lemma_members_names(d, j);
        assert(pre[i].name == spec_entry(d, j).unwrap().name);
        assert(contains_name(pre, spec_entry(d, j).unwrap().name));
        assert(spec_members(d, j + 1) == Err::<Seq<MemberModel>, ParseError>(
            ParseError::DuplicateName,
        ));
        lemma_members_err(d, j + 1, n);
    }
}

/// The terminator of a successfully parsed archive starts inside the
/// buffer: the running maximum starts at 16 and every payload read that
/// raises it ends inside the buffer.
pub proof fn lemma_end_bounds(d: Seq<u8>, n: int)
    requires
        0 <= n,
        d.len() >= 16,
        spec_members(d, n) is Ok,
    ensures
        16 <= spec_end(d, n) <= d.len(),
    decreases n,
{
    if n > 0 {
        lemma_end_bounds(d, n - 1);
    }
}

/// How truncation at `cut` strikes one record: a record whose reads all
/// lie below the cut parses unchanged from the prefix; any other record
/// runs out of data.
proof fn lemma_entry_truncated(d: Seq<u8>, cut: int, k: int)
    requires
        0 <= k,
        16 <= cut <= d.len(),
        spec_entry(d, k) is Ok,
    ensures
        ({
            let t = d.subrange(0, cut);
            if toc_base(k) + 27 <= cut && spec_entry(d, k).unwrap().end <= cut {
                spec_entry(t, k) == spec_entry(d, k)
            } else {
                spec_entry(t, k) == Err::<EntryModel, ParseError>(ParseError::EndOfData)
            }
        }),
{
    let t = d.subrange(0, cut);
    let tb = toc_base(k);
    let ent = spec_entry(d, k).unwrap();
    if tb + 20 > cut {
    } else {
        assert(t.subrange(tb, tb + 20) =~= d.subrange(tb, tb + 20));
        if tb + 27 > cut {
        } else {
            assert(le32(t, tb + 20) == le32(d, tb + 20));
            assert(le16(t, tb + 25) == le16(d, tb + 25));
            let off = le32(d, tb + 20);
            if off + 20 > cut {
            } else {
                assert(t.subrange(off, off + 20) =~= d.subrange(off, off + 20));
                if off + 24 > cut {
                } else {
                    assert(le32(t, off + 20) == le32(d, off + 20));
                    let size = le32(d, off + 20);
                    if off + 24 + size > cut {
                    } else {
                        assert(t.subrange(off + 24, off + 24 + size) =~= d.subrange(
                            off + 24,
                            off + 24 + size,
                        ));
                    }
                }
            }
        }
    }
}

/// How truncation at `cut` strikes the member list: the prefix either
/// runs out of data, or parses to the same first `k` members because all
/// their reads lie below the cut.
proof fn lemma_members_truncated(d: Seq<u8>, cut: int, k: int)
    requires
        16 <= cut <= d.len(),
        0 <= k,
        spec_members(d, k) is Ok,
    ensures
        spec_members(d.subrange(0, cut), k) == Err::<Seq<MemberModel>, ParseError>(
            ParseError::EndOfData,
        ) || (spec_members(d.subrange(0, cut), k) == spec_members(d, k) && spec_end(d, k) <= cut
            && toc_base(k) <= cut),
    decreases k,
{
    let t = d.subrange(0, cut);
    if k == 0 {
        assert(spec_members(t, 0) == spec_members(d, 0));
    } else {
        lemma_members_truncated(d, cut, k - 1);
        if spec_members(t, k - 1) == Err::<Seq<MemberModel>, ParseError>(ParseError::EndOfData) {
            lemma_members_err(t, k - 1, k);
        } else {
            lemma_entry_truncated(d, cut, k - 1);
            let ent = spec_entry(d, k - 1).unwrap();
            if toc_base(k - 1) + 27 <= cut && ent.end <= cut {
                assert(spec_members(t, k) == spec_members(d, k));
            } else {
                assert(spec_members(t, k) == Err::<Seq<MemberModel>, ParseError>(
                    ParseError::EndOfData,
                ));
            }
        }
    }
}

/// Truncating a well-formed archive anywhere strictly before the end of
/// its member data makes the parse fail with an end-of-data error: a
/// shorter buffer never yields a shorter member list.  (A cut at or past
/// the end of the member data still parses, with a shortened terminator
/// tag: the terminator is whatever bytes remain, so it is not covered
/// here.)
pub proof fn lemma_parse_truncated(d: Seq<u8>, cut: int)
    requires
        spec_parse(d) is Ok,
        0 <= cut < spec_end(d, le32(d, 12)),
    ensures
        spec_parse(d.subrange(0, cut)) == Err::<ArchiveModel, ParseError>(ParseError::EndOfData),
{
    let t = d.subrange(0, cut);
    let n = le32(d, 12);
    lemma_end_bounds(d, n);
    if cut < 12 {
    } else {
        assert(t.subrange(0, 12) =~= d.subrange(0, 12));
        if cut < 16 {
        } else {
            assert(le32(t, 12) == n);
            lemma_members_truncated(d, cut, n);
            if !(spec_members(t, n) == Err::<Seq<MemberModel>, ParseError>(
                ParseError::EndOfData,
            )) {
                assert(spec_end(d, n) <= cut);
            }
        }
    }
}

/// No two members of a successfully parsed member list share a name.
pub proof fn lemma_members_unique(d: Seq<u8>, n: int)
    requires
        spec_members(d, n) is Ok,
    ensures
        forall|p: int, q: int|
            0 <= p < q < spec_members(d, n).unwrap().len()
                ==> spec_members(d, n).unwrap()[p].name != spec_members(d, n).unwrap()[q].name,
    decreases n,
{
    if n > 0 {
        lemma_members_unique(d, n - 1);
        let pre = spec_members(d, n - 1).unwrap();
        let ms = spec_members(d, n).unwrap();
        assert(forall|p: int| 0 <= p < pre.len() ==> ms[p] == pre[p]);
    }
}

} // verus!
