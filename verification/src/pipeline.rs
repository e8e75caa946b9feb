//! The unpack pipeline: locate the two filesystem tables through the header,
//! resolve the name table and the allocation table, and classify every
//! file's bytes — decompressed text table, decompressed binary, or raw.
use crate::fat::{fat_spec, AllocEntry};
use crate::fnt::{file_models, name_table_spec, ResolvedFile};
use crate::header::HEADER_LEN;
use crate::lz10::lz10_result;
use crate::text_table::{strings_match_scalars, text_table_spec};
use crate::wire::le32_at;
use vstd::prelude::*;
use vstd::slice::{slice_subrange, slice_to_vec};

verus! {

/// Structural failures that abort a whole unpack run.
#[derive(Debug, PartialEq, Eq, Clone, Copy)]
pub enum UnpackError {
    /// The ROM is shorter than the fixed header region.
    TruncatedHeader,
    /// The name-table region lies outside the ROM, or the table is invalid.
    MalformedNameTable,
    /// The allocation-table region lies outside the ROM, the table is
    /// invalid, or a record points past the end of the ROM.
    TruncatedAllocationTable,
    /// A file id has no allocation record.
    FileIdOutOfRange,
}

/// What one file's bytes turned out to be. A failed decompression degrades
/// the file to raw bytes; a decompressed payload that is no string table
/// stays binary.
#[derive(Debug)]
pub enum FileContent {
    Raw(Vec<u8>),
    DecompressedBinary(Vec<u8>),
    Text(Vec<String>),
}

/// The mathematical counterpart of `FileContent`, with text as sequences of
/// Unicode scalar values.
pub enum ContentModel {
    Raw(Seq<u8>),
    DecompressedBinary(Seq<u8>),
    Text(Seq<Seq<u32>>),
}

/// The classification of one file's bytes: try the decompression codec, and
/// on success try the string-table decoder.
pub open spec fn classify_spec(data: Seq<u8>) -> ContentModel {
    match lz10_result(data) {
        Err(e) => ContentModel::Raw(data),
        Ok(d) => match text_table_spec(d) {
            Err(e) => ContentModel::DecompressedBinary(d),
            Ok(cps) => ContentModel::Text(cps),
        },
    }
}

/// True when the produced content spells out exactly the model `m`.
pub open spec fn content_matches(c: FileContent, m: ContentModel) -> bool {
    match c {
        FileContent::Raw(v) => m matches ContentModel::Raw(s) && v@ == s,
        FileContent::DecompressedBinary(v) => m matches ContentModel::DecompressedBinary(s) && v@
            == s,
        FileContent::Text(ss) => m matches ContentModel::Text(cps) && strings_match_scalars(
            ss.deep_view(),
            cps,
        ),
    }
}

/// Classifies one standalone buffer, as the identify operation does for a
/// single file.
pub fn classify(data: &[u8]) -> (c: FileContent)
    ensures
        content_matches(c, classify_spec(data@)),
{
    match crate::lz10::decompress_lz10(data) {
        Err(e) => FileContent::Raw(slice_to_vec(data)),
        Ok(d) => match crate::text_table::parse_text_file(d.as_slice()) {
            Err(e) => FileContent::DecompressedBinary(d),
            Ok(ss) => FileContent::Text(ss),
        },
    }
}

/// `e` inserted into `s` before the first entry with a strictly larger id,
/// so equal ids keep their relative order.
pub open spec fn sorted_insert(e: (u16, Seq<u8>), s: Seq<(u16, Seq<u8>)>) -> Seq<(u16, Seq<u8>)>
    decreases s.len(),
{
    if s.len() == 0 {
        seq![e]
    } else if e.0 < s[0].0 {
        seq![e] + s
    } else {
        seq![s[0]] + sorted_insert(e, s.drop_first())
    }
}

/// `s` stably sorted by file id.
pub open spec fn sort_by_id(s: Seq<(u16, Seq<u8>)>) -> Seq<(u16, Seq<u8>)>
    decreases s.len(),
{
    if s.len() == 0 {
        s
    } else {
        sorted_insert(s.last(), sort_by_id(s.drop_last()))
    }
}

/// True when the files stand in nondecreasing file-id order.
pub open spec fn ids_nondecreasing(s: Seq<(u16, Seq<u8>)>) -> bool {
    forall|i: int, j: int| 0 <= i <= j < s.len() ==> s[i].0 <= s[j].0
}

proof fn lemma_sorted_insert_keeps_order(e: (u16, Seq<u8>), s: Seq<(u16, Seq<u8>)>)
    requires
        ids_nondecreasing(s),
    ensures
        ids_nondecreasing(sorted_insert(e, s)),
        sorted_insert(e, s).len() == s.len() + 1,
        forall|k: int|
            0 <= k < sorted_insert(e, s).len() ==> sorted_insert(e, s)[k].0 >= e.0
                || (s.len() > 0 && sorted_insert(e, s)[k].0 >= s[0].0),
    decreases s.len(),
{
    if s.len() == 0 {
    } else if e.0 < s[0].0 {
    } else {
        assert(forall|i: int, j: int|
            0 <= i <= j < s.drop_first().len() ==> s.drop_first()[i].0 <= s.drop_first()[j].0);
        lemma_sorted_insert_keeps_order(e, s.drop_first());
        let r = sorted_insert(e, s);
        let sub = sorted_insert(e, s.drop_first());
        assert(forall|k: int| 1 <= k < r.len() ==> #[trigger] r[k] == sub[k - 1]);
        assert(forall|k: int| 1 <= k < r.len() ==> r[0].0 <= #[trigger] r[k].0);
    }
}

/// The pipeline's reordering really is an id sort: the stably sorted file
/// list stands in nondecreasing file-id order.
pub proof fn lemma_sort_by_id_orders(s: Seq<(u16, Seq<u8>)>)
    ensures
        ids_nondecreasing(sort_by_id(s)),
        sort_by_id(s).len() == s.len(),
    decreases s.len(),
{
    if s.len() > 0 {
        lemma_sort_by_id_orders(s.drop_last());
        lemma_sorted_insert_keeps_order(s.last(), sort_by_id(s.drop_last()));
    }
}

proof fn lemma_entries_out_keeps_ids(
    rom: Seq<u8>,
    fat: Seq<AllocEntry>,
    files: Seq<(u16, Seq<u8>)>,
)
    requires
        entries_out(rom, fat, files) is Ok,
    ensures
        entries_out(rom, fat, files)->Ok_0.len() == files.len(),
        forall|i: int|
            0 <= i < files.len() ==> entries_out(rom, fat, files)->Ok_0[i].0 == files[i].0,
    decreases files.len(),
{
    if files.len() > 0 {
        lemma_entries_out_keeps_ids(rom, fat, files.drop_first());
        let r = entries_out(rom, fat, files)->Ok_0;
        let rest = entries_out(rom, fat, files.drop_first())->Ok_0;
        assert(forall|i: int| 1 <= i < r.len() ==> r[i] == rest[i - 1]);
        assert(forall|i: int| 1 <= i < files.len() ==> files[i] == files.drop_first()[i - 1]);
    }
}

/// A successful unpack emits its files in nondecreasing file-id order.
#[verifier::rlimit(50)]
pub proof fn lemma_unpack_emits_in_id_order(rom: Seq<u8>)
    requires
        unpack_spec(rom) is Ok,
    ensures
        forall|i: int, j: int|
            0 <= i <= j < unpack_spec(rom)->Ok_0.len() ==> unpack_spec(rom)->Ok_0[i].0
                <= unpack_spec(rom)->Ok_0[j].0,
{
    let nto = le32_at(rom, 0x40);
    let nts = le32_at(rom, 0x44);
    let ato = le32_at(rom, 0x48);
    let ats = le32_at(rom, 0x4C);
    let files = name_table_spec(rom.subrange(nto, nto + nts))->Ok_0;
    let fat = fat_spec(rom.subrange(ato, ato + ats))->Ok_0;
    assert(unpack_spec(rom) == entries_out(rom, fat, sort_by_id(files)));
    lemma_sort_by_id_orders(files);
    lemma_entries_out_keeps_ids(rom, fat, sort_by_id(files));
    let sorted = sort_by_id(files);
    let out = entries_out(rom, fat, sorted)->Ok_0;
    assert forall|i: int, j: int| 0 <= i <= j < out.len() implies out[i].0 <= out[j].0 by {
        assert(out[i].0 == sorted[i].0);
        assert(out[j].0 == sorted[j].0);
        assert(sorted[i].0 <= sorted[j].0);
    }
}

/// What unpacking one resolved file yields: its allocation record looked up
/// by file id, the byte range sliced from the ROM, and the slice classified.
pub open spec fn entry_out(rom: Seq<u8>, fat: Seq<AllocEntry>, f: (u16, Seq<u8>)) -> Result<
    (u16, Seq<u8>, ContentModel),
    UnpackError,
> {
    if f.0 >= fat.len() {
        Err(UnpackError::FileIdOutOfRange)
    } else if fat[f.0 as int].end > rom.len() {
        Err(UnpackError::TruncatedAllocationTable)
    } else {
        Ok(
            (
                f.0,
                f.1,
                classify_spec(
                    rom.subrange(fat[f.0 as int].start as int, fat[f.0 as int].end as int),
                ),
            ),
        )
    }
}

/// `entry_out` over a whole file list, stopping at the first failure.
pub open spec fn entries_out(
    rom: Seq<u8>,
    fat: Seq<AllocEntry>,
    files: Seq<(u16, Seq<u8>)>,
) -> Result<Seq<(u16, Seq<u8>, ContentModel)>, UnpackError>
    decreases files.len(),
{
    if files.len() == 0 {
        Ok(Seq::empty())
    } else {
        match entry_out(rom, fat, files[0]) {
            Err(e) => Err(e),
            Ok(m) => match entries_out(rom, fat, files.drop_first()) {
                Err(e) => Err(e),
                Ok(rest) => Ok(seq![m] + rest),
            },
        }
    }
}

/// What unpacking a whole ROM yields: every file of the name table, in file
/// id order, classified; or the first structural failure.
pub open spec fn unpack_spec(rom: Seq<u8>) -> Result<
    Seq<(u16, Seq<u8>, ContentModel)>,
    UnpackError,
> {
    if rom.len() < HEADER_LEN {
        Err(UnpackError::TruncatedHeader)
    } else {
        let nto = le32_at(rom, 0x40);
        let nts = le32_at(rom, 0x44);
        let ato = le32_at(rom, 0x48);
        let ats = le32_at(rom, 0x4C);
        if nto + nts > rom.len() {
            Err(UnpackError::MalformedNameTable)
        } else if ato + ats > rom.len() {
            Err(UnpackError::TruncatedAllocationTable)
        } else {
            match name_table_spec(rom.subrange(nto, nto + nts)) {
                Err(e) => Err(UnpackError::MalformedNameTable),
                Ok(files) => match fat_spec(rom.subrange(ato, ato + ats)) {
                    Err(e) => Err(UnpackError::TruncatedAllocationTable),
                    Ok(fat) => entries_out(rom, fat, sort_by_id(files)),
                },
            }
        }
    }
}

/// One unpacked file: its id, its full path, and its classified content.
#[derive(Debug)]
pub struct UnpackedFile {
    pub id: u16,
    pub path: Vec<u8>,
    pub content: FileContent,
}

/// True when the unpacked files spell out exactly the models `m`.
pub open spec fn unpacked_match(v: Seq<UnpackedFile>, m: Seq<(u16, Seq<u8>, ContentModel)>) -> bool {
    v.len() == m.len() && forall|i: int|
        0 <= i < v.len() ==> v[i].id == m[i].0 && v[i].path@ == m[i].1 && content_matches(
            v[i].content,
            m[i].2,
        )
}

/// Reorders resolved files into file-id order, stably.
fn sort_files(files: Vec<ResolvedFile>) -> (r: Vec<ResolvedFile>)
    ensures
        file_models(r@) == sort_by_id(file_models(files@)),
{
    let mut input = files;
    let mut out: Vec<ResolvedFile> = Vec::new();
    let ghost orig = file_models(input@);
    proof {
        assert(orig.take(0) =~= Seq::<(u16, Seq<u8>)>::empty());
        assert(file_models(out@) =~= sort_by_id(orig.take(0)));
        assert(file_models(input@) =~= orig.skip(0));
    }
    while input.len() > 0
        invariant
            input@.len() <= orig.len(),
            file_models(input@) == orig.skip(orig.len() - input@.len()),
            file_models(out@) == sort_by_id(orig.take(orig.len() - input@.len())),
        decreases input@.len(),
    {
        let ghost done = orig.len() - input@.len();
        let ghost input_before = input@;
        let f = input.remove(0);
        let ghost fm = f@;
        proof {
            assert(file_models(input_before)[0] == input_before[0]@);
            assert(file_models(input_before)[0] == orig.skip(done)[0]);
            assert(fm == orig[done]);
            assert(input@ =~= input_before.drop_first());
            assert(file_models(input@) =~= file_models(input_before).drop_first());
            assert(file_models(input@) =~= orig.skip(done + 1));
        }
        let n = out.len();
        let id = f.id;
        let mut j: usize = 0;
        proof {
            assert(file_models(out@).take(0) =~= Seq::<(u16, Seq<u8>)>::empty());
            assert(file_models(out@).skip(0) =~= file_models(out@));
        }
        while j < n && !(id < out[j].id)
            invariant
                j <= n,
                n == out@.len(),
                sorted_insert(fm, file_models(out@)) == file_models(out@).take(j as int)
                    + sorted_insert(fm, file_models(out@).skip(j as int)),
            decreases n - j,
        {
            proof {
                let s = file_models(out@).skip(j as int);
                assert(s[0] == file_models(out@)[j as int]);
                assert(s.drop_first() =~= file_models(out@).skip(j + 1));
                assert(file_models(out@).take(j as int) + (seq![s[0]] + sorted_insert(
                    fm,
                    s.drop_first(),
                )) =~= file_models(out@).take(j + 1) + sorted_insert(
                    fm,
                    file_models(out@).skip(j + 1),
                ));
            }
            j = j + 1;
        }
        proof {
            let s = file_models(out@).skip(j as int);
            if j < out@.len() {
                assert(s[0] == file_models(out@)[j as int]);
                assert(sorted_insert(fm, s) =~= seq![fm] + s);
            } else {
                assert(s =~= Seq::<(u16, Seq<u8>)>::empty());
                assert(sorted_insert(fm, s) =~= seq![fm] + s);
            }
        }
        let ghost out_before = file_models(out@);
        out.insert(j, f);
        proof {
            assert(file_models(out@) =~= out_before.take(j as int) + (seq![fm] + out_before.skip(
                j as int,
            )));
            assert(file_models(out@) =~= sorted_insert(fm, out_before));
            assert(orig.take(done + 1).drop_last() =~= orig.take(done));
            assert(orig.take(done + 1).last() == fm);
        }
    }
    proof {
        assert(orig.take(orig.len() as int) =~= orig);
    }
    out
}

/// Unpacks a whole ROM: locates both tables through the header, resolves
/// every file of the name table, and classifies each file's byte range, in
/// file-id order.
pub fn unpack_rom(rom: &[u8]) -> (r: Result<Vec<UnpackedFile>, UnpackError>)
    ensures
        match r {
            Ok(v) => unpack_spec(rom@) is Ok && unpacked_match(v@, unpack_spec(rom@)->Ok_0),
            Err(e) => unpack_spec(rom@) == Err::<Seq<(u16, Seq<u8>, ContentModel)>, UnpackError>(
                e,
            ),
        },
{
    let regions = match crate::header::read_header(rom) {
        Ok(t) => t,
        Err(e) => {
            return Err(UnpackError::TruncatedHeader);
        },
    };
    let nto = regions.name_table_offset;
    let nts = regions.name_table_size;
    let ato = regions.alloc_table_offset;
    let ats = regions.alloc_table_size;
    if nto as u64 + nts as u64 > rom.len() as u64 {
        return Err(UnpackError::MalformedNameTable);
    }
    if ato as u64 + ats as u64 > rom.len() as u64 {
        return Err(UnpackError::TruncatedAllocationTable);
    }
    let fnt_slice = slice_subrange(rom, nto as usize, nto as usize + nts as usize);
    let files = match crate::fnt::resolve_name_table(fnt_slice) {
        Ok(v) => v,
        Err(e) => {
            return Err(UnpackError::MalformedNameTable);
        },
    };
    let fat_slice = slice_subrange(rom, ato as usize, ato as usize + ats as usize);
    let fat = match crate::fat::parse_alloc_table(fat_slice) {
        Ok(v) => v,
        Err(e) => {
            return Err(UnpackError::TruncatedAllocationTable);
        },
    };
    let mut sorted = sort_files(files);
    let ghost ms = file_models(sorted@);
    let mut out: Vec<UnpackedFile> = Vec::new();
    let ghost mut acc: Seq<(u16, Seq<u8>, ContentModel)> = Seq::empty();
    proof {
        assert(ms.skip(0) =~= ms);
        match entries_out(rom@, fat@, ms) {
            Ok(rest) => {
                assert(acc + rest =~= rest);
            },
            Err(e) => {},
        }
    }
    while sorted.len() > 0
        invariant
            sorted@.len() <= ms.len(),
            file_models(sorted@) == ms.skip(ms.len() - sorted@.len()),
            unpacked_match(out@, acc),
            entries_out(rom@, fat@, ms) == match entries_out(
                rom@,
                fat@,
                ms.skip(ms.len() - sorted@.len()),
            ) {
                Ok(rest) => Ok::<Seq<(u16, Seq<u8>, ContentModel)>, UnpackError>(acc + rest),
                Err(e) => Err::<Seq<(u16, Seq<u8>, ContentModel)>, UnpackError>(e),
            },
        decreases sorted@.len(),
    {
        let ghost done = ms.len() - sorted@.len();
        let ghost sorted_before = sorted@;
        let f = sorted.remove(0);
        let ghost fm = f@;
        proof {
            assert(file_models(sorted_before)[0] == sorted_before[0]@);
            assert(file_models(sorted_before)[0] == ms.skip(done)[0]);
            assert(fm == ms[done]);
            assert(sorted@ =~= sorted_before.drop_first());
            assert(file_models(sorted@) =~= file_models(sorted_before).drop_first());
            assert(file_models(sorted@) =~= ms.skip(done + 1));
            assert(ms.skip(done)[0] == fm);
            assert(ms.skip(done).drop_first() =~= ms.skip(done + 1));
        }
        let id = f.id;
        if id as usize >= fat.len() {
            return Err(UnpackError::FileIdOutOfRange);
        }
        let a = fat[id as usize];
        proof {
            if a.end < a.start {
                assert(crate::fat::fat_entries(fat_slice@)[id as int] == a);
                assert(false);
            }
        }
        if a.end as u64 > rom.len() as u64 {
            return Err(UnpackError::TruncatedAllocationTable);
        }
        let data = slice_subrange(rom, a.start as usize, a.end as usize);
        let content = classify(data);
        let ghost cm = classify_spec(data@);
        let ghost path_model = f.path@;
        out.push(UnpackedFile { id, path: f.path, content });
        proof {
            match entries_out(rom@, fat@, ms.skip(done + 1)) {
                Ok(rest) => {
                    assert(acc + (seq![(fm.0, fm.1, cm)] + rest) =~= (acc + seq![(fm.0, fm.1, cm)])
                        + rest);
                },
                Err(e) => {},
            }
            acc = acc + seq![(fm.0, fm.1, cm)];
        }
    }
    proof {
        assert(ms.skip(ms.len() - sorted@.len()) =~= Seq::<(u16, Seq<u8>)>::empty());
        assert(acc + Seq::<(u16, Seq<u8>, ContentModel)>::empty() =~= acc);
    }
    Ok(out)
}

} // verus!
