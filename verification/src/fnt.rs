//! The hierarchical file-name table: a set of small directory sub-tables
//! linked by 32-bit offsets. Each sub-table header is 8 bytes (offset to the
//! directory's name-entry list, the first file id of the directory, and a
//! 16-bit field that holds the total directory count for the root and the
//! parent id for every other directory). A name entry is a tag byte whose
//! high bit marks a subdirectory and whose low 7 bits give the name length,
//! the raw name bytes, and, for a subdirectory, a 16-bit directory id.
//!
//! Directory ids occupy 0xF000..=0xFFFF; the sub-table of directory id `d`
//! lies at byte offset `(d - 0xF000) * 8`. File ids stay below 0xF000 and are
//! assigned per directory, counting up from the directory's first file id.
//! Resolution descends depth-first, bounded by the declared directory count,
//! so a cyclic table is rejected rather than looped on.
use crate::wire::{le16_at, le32_at};
use vstd::prelude::*;

verus! {

/// The path separator joining directory and file names.
pub const PATH_SEP: u8 = 47;

/// Failure conditions of the name-table resolver.
#[derive(Debug, PartialEq, Eq, Clone, Copy)]
pub enum FntError {
    /// A truncated read, an out-of-range sub-table address, an id outside
    /// its valid space, or descent deeper than the declared directory count.
    MalformedNameTable,
}

/// A file found in the name table: its id and its full path, directory names
/// joined by the path separator.
#[derive(Debug, PartialEq, Eq)]
pub struct ResolvedFile {
    pub id: u16,
    pub path: Vec<u8>,
}

impl View for ResolvedFile {
    type V = (u16, Seq<u8>);

    open spec fn view(&self) -> (u16, Seq<u8>) {
        (self.id, self.path@)
    }
}

/// The id/path pairs that a list of resolved files stands for.
pub open spec fn file_models(v: Seq<ResolvedFile>) -> Seq<(u16, Seq<u8>)> {
    v.map_values(|f: ResolvedFile| f@)
}

/// The files of the directory whose sub-table index is `dir_index`, in
/// depth-first on-disk order, each under `prefix`. `budget` bounds how deep
/// the descent below this directory may still go.
pub open spec fn dir_spec(
    fnt: Seq<u8>,
    dir_index: u16,
    prefix: Seq<u8>,
    budget: nat,
    count: u16,
) -> Result<Seq<(u16, Seq<u8>)>, FntError>
    decreases budget, fnt.len() + 1,
{
    if 8 * dir_index + 8 > fnt.len() {
        Err(FntError::MalformedNameTable)
    } else {
        let entry_off = le32_at(fnt, 8 * dir_index);
        let first_id = le16_at(fnt, 8 * dir_index + 4);
        entries_spec(fnt, entry_off, first_id as u16, prefix, budget, count)
    }
}

/// The files contributed by the name entries from offset `pos` on, with
/// `next_id` the id the next plain file entry receives.
pub open spec fn entries_spec(
    fnt: Seq<u8>,
    pos: int,
    next_id: u16,
    prefix: Seq<u8>,
    budget: nat,
    count: u16,
) -> Result<Seq<(u16, Seq<u8>)>, FntError>
    decreases budget, if fnt.len() - pos > 0 { fnt.len() - pos } else { 0 },
{
    if pos < 0 || pos + 1 > fnt.len() {
        Err(FntError::MalformedNameTable)
    } else if fnt[pos] == 0 {
        Ok(Seq::empty())
    } else {
        let tag = fnt[pos];
        let nlen = (tag & 0x7F) as int;
        if pos + 1 + nlen > fnt.len() {
            Err(FntError::MalformedNameTable)
        } else {
            let name = fnt.subrange(pos + 1, pos + 1 + nlen);
            let path = prefix + seq![PATH_SEP] + name;
            if tag & 0x80 != 0 {
                if pos + 1 + nlen + 2 > fnt.len() {
                    Err(FntError::MalformedNameTable)
                } else {
                    let sub_id = le16_at(fnt, pos + 1 + nlen);
                    if sub_id < 0xF000 || sub_id - 0xF000 >= count {
                        Err(FntError::MalformedNameTable)
                    } else if budget == 0 {
                        Err(FntError::MalformedNameTable)
                    } else {
                        match dir_spec(
                            fnt,
                            (sub_id - 0xF000) as u16,
                            path,
                            (budget - 1) as nat,
                            count,
                        ) {
                            Err(e) => Err(e),
                            Ok(sub) => match entries_spec(
                                fnt,
                                pos + 1 + nlen + 2,
                                next_id,
                                prefix,
                                budget,
                                count,
                            ) {
                                Err(e) => Err(e),
                                Ok(rest) => Ok(sub + rest),
                            },
                        }
                    }
                }
            } else {
                if next_id >= 0xF000 {
                    Err(FntError::MalformedNameTable)
                } else {
                    match entries_spec(
                        fnt,
                        pos + 1 + nlen,
                        (next_id + 1) as u16,
                        prefix,
                        budget,
                        count,
                    ) {
                        Err(e) => Err(e),
                        Ok(rest) => Ok(seq![(next_id, path)] + rest),
                    }
                }
            }
        }
    }
}

/// What resolving a whole name table yields: the root sub-table lives at
/// offset 0 and its third field holds the total directory count, which also
/// bounds the depth of the descent.
pub open spec fn name_table_spec(fnt: Seq<u8>) -> Result<Seq<(u16, Seq<u8>)>, FntError> {
    if fnt.len() < 8 {
        Err(FntError::MalformedNameTable)
    } else {
        let count = le16_at(fnt, 6);
        if count == 0 || count > 0x1000 {
            Err(FntError::MalformedNameTable)
        } else {
            dir_spec(fnt, 0, Seq::empty(), count as nat, count as u16)
        }
    }
}

/// True when the entry list at `pos` holds only plain file entries before
/// its terminator: no subdirectory entries.
pub open spec fn flat_entries(fnt: Seq<u8>, pos: int) -> bool
    decreases if fnt.len() - pos > 0 { fnt.len() - pos } else { 0 },
{
    if pos < 0 || pos + 1 > fnt.len() {
        true
    } else if fnt[pos] == 0 {
        true
    } else {
        let tag = fnt[pos];
        let nlen = (tag & 0x7F) as int;
        if pos + 1 + nlen > fnt.len() {
            true
        } else if tag & 0x80 != 0 {
            false
        } else {
            flat_entries(fnt, pos + 1 + nlen)
        }
    }
}

/// File ids within one directory are consecutive: a flat entry list that
/// resolves successfully emits exactly the ids `next_id`, `next_id + 1`, ...
/// in order — no duplicate and no gap.
pub proof fn lemma_flat_ids_consecutive(
    fnt: Seq<u8>,
    pos: int,
    next_id: u16,
    prefix: Seq<u8>,
    budget: nat,
    count: u16,
)
    requires
        flat_entries(fnt, pos),
        entries_spec(fnt, pos, next_id, prefix, budget, count) is Ok,
    ensures
        ({
            let files = entries_spec(fnt, pos, next_id, prefix, budget, count)->Ok_0;
            forall|i: int| 0 <= i < files.len() ==> files[i].0 == next_id + i
        }),
    decreases if fnt.len() - pos > 0 { fnt.len() - pos } else { 0 },
{
    if pos < 0 || pos + 1 > fnt.len() {
    } else if fnt[pos] == 0 {
    } else {
        let tag = fnt[pos];
        let nlen = (tag & 0x7F) as int;
        if pos + 1 + nlen <= fnt.len() && tag & 0x80 == 0 {
            lemma_flat_ids_consecutive(
                fnt,
                pos + 1 + nlen,
                (next_id + 1) as u16,
                prefix,
                budget,
                count,
            );
            let files = entries_spec(fnt, pos, next_id, prefix, budget, count)->Ok_0;
            let rest = entries_spec(
                fnt,
                pos + 1 + nlen,
                (next_id + 1) as u16,
                prefix,
                budget,
                count,
            )->Ok_0;
            let name = fnt.subrange(pos + 1, pos + 1 + nlen);
            let path = prefix + seq![PATH_SEP] + name;
            assert(files == seq![(next_id, path)] + rest);
            assert(files[0].0 == next_id);
            assert forall|i: int| 1 <= i < files.len() implies files[i].0 == next_id + i by {
                assert(files[i] == rest[i - 1]);
            }
        }
    }
}

proof fn lemma_dir_ids_in_file_space(
    fnt: Seq<u8>,
    dir_index: u16,
    prefix: Seq<u8>,
    budget: nat,
    count: u16,
)
    requires
        dir_spec(fnt, dir_index, prefix, budget, count) is Ok,
    ensures
        ({
            let files = dir_spec(fnt, dir_index, prefix, budget, count)->Ok_0;
            forall|i: int| 0 <= i < files.len() ==> files[i].0 < 0xF000
        }),
    decreases budget, fnt.len() + 1,
{
    let entry_off = le32_at(fnt, 8 * dir_index);
    let first_id = le16_at(fnt, 8 * dir_index + 4);
    lemma_entries_ids_in_file_space(fnt, entry_off, first_id as u16, prefix, budget, count);
}

proof fn lemma_entries_ids_in_file_space(
    fnt: Seq<u8>,
    pos: int,
    next_id: u16,
    prefix: Seq<u8>,
    budget: nat,
    count: u16,
)
    requires
        entries_spec(fnt, pos, next_id, prefix, budget, count) is Ok,
    ensures
        ({
            let files = entries_spec(fnt, pos, next_id, prefix, budget, count)->Ok_0;
            forall|i: int| 0 <= i < files.len() ==> files[i].0 < 0xF000
        }),
    decreases budget, if fnt.len() - pos > 0 { fnt.len() - pos } else { 0 },
{
    if pos < 0 || pos + 1 > fnt.len() {
    } else if fnt[pos] == 0 {
    } else {
        let tag = fnt[pos];
        let nlen = (tag & 0x7F) as int;
        if pos + 1 + nlen > fnt.len() {
        } else {
            let name = fnt.subrange(pos + 1, pos + 1 + nlen);
            let path = prefix + seq![PATH_SEP] + name;
            let files = entries_spec(fnt, pos, next_id, prefix, budget, count)->Ok_0;
            if tag & 0x80 != 0 {
                let sub_id = le16_at(fnt, pos + 1 + nlen);
                lemma_dir_ids_in_file_space(
                    fnt,
                    (sub_id - 0xF000) as u16,
                    path,
                    (budget - 1) as nat,
                    count,
                );
                lemma_entries_ids_in_file_space(
                    fnt,
                    pos + 1 + nlen + 2,
                    next_id,
                    prefix,
                    budget,
                    count,
                );
                let sub = dir_spec(fnt, (sub_id - 0xF000) as u16, path, (budget - 1) as nat, count)->Ok_0;
                let rest = entries_spec(fnt, pos + 1 + nlen + 2, next_id, prefix, budget, count)->Ok_0;
                assert(files == sub + rest);
                assert forall|i: int| 0 <= i < files.len() implies files[i].0 < 0xF000 by {
                    if i < sub.len() {
                        assert(files[i] == sub[i]);
                    } else {
                        assert(files[i] == rest[i - sub.len()]);
                    }
                }
            } else {
                lemma_entries_ids_in_file_space(
                    fnt,
                    pos + 1 + nlen,
                    (next_id + 1) as u16,
                    prefix,
                    budget,
                    count,
                );
                let rest = entries_spec(fnt, pos + 1 + nlen, (next_id + 1) as u16, prefix, budget, count)->Ok_0;
                assert(files == seq![(next_id, path)] + rest);
                assert forall|i: int| 0 <= i < files.len() implies files[i].0 < 0xF000 by {
                    if i >= 1 {
                        assert(files[i] == rest[i - 1]);
                    }
                }
            }
        }
    }
}

/// File ids and directory ids share one 16-bit space: whatever the table's
/// shape, every file id a successful resolution emits lies strictly below
/// the directory-id space at 0xF000.
pub proof fn lemma_file_ids_below_directory_space(fnt: Seq<u8>)
    requires
        name_table_spec(fnt) is Ok,
    ensures
        ({
            let files = name_table_spec(fnt)->Ok_0;
            forall|i: int| 0 <= i < files.len() ==> files[i].0 < 0xF000
        }),
{
    let count = le16_at(fnt, 6);
    lemma_dir_ids_in_file_space(fnt, 0, Seq::empty(), count as nat, count as u16);
}

/// The restricted form of id completeness: a name table whose root entry
/// list is flat (a single directory of files) emits ids `first`, `first + 1`,
/// ... — every emitted id unique, the id set contiguous from the root's
/// declared first file id. With subdirectories the claim depends on the
/// sub-tables' declared first ids and can fail, so it is not stated there.
pub proof fn lemma_flat_table_ids_unique_and_complete(fnt: Seq<u8>)
    requires
        fnt.len() >= 8,
        flat_entries(fnt, le32_at(fnt, 0)),
        name_table_spec(fnt) is Ok,
    ensures
        ({
            let files = name_table_spec(fnt)->Ok_0;
            let first = le16_at(fnt, 4);
            &&& forall|i: int| 0 <= i < files.len() ==> files[i].0 == first + i
            &&& forall|i: int, j: int|
                0 <= i < files.len() && 0 <= j < files.len() && i != j ==> files[i].0 != files[j].0
        }),
{
    let count = le16_at(fnt, 6);
    lemma_flat_ids_consecutive(
        fnt,
        le32_at(fnt, 0),
        le16_at(fnt, 4) as u16,
        Seq::empty(),
        count as nat,
        count as u16,
    );
}

/// Resolves one directory's sub-table, appending its files to `out`.
fn resolve_dir(
    fnt: &[u8],
    dir_index: u16,
    prefix: &Vec<u8>,
    budget: u16,
    count: u16,
    out: &mut Vec<ResolvedFile>,
) -> (r: Result<(), FntError>)
    ensures
        match dir_spec(fnt@, dir_index, prefix@, budget as nat, count) {
            Ok(files) => r is Ok && file_models(final(out)@) == file_models(old(out)@) + files,
            Err(e) => r == Err::<(), FntError>(e),
        },
    decreases budget,
{
    let addr: usize = 8 * (dir_index as usize);
    if fnt.len() < 8 || addr > fnt.len() - 8 {
        return Err(FntError::MalformedNameTable);
    }
    let entry_off = crate::wire::read_le32(fnt, addr);
    let first_id = crate::wire::read_le16(fnt, addr + 4);
    if (entry_off as u64) >= fnt.len() as u64 {
        return Err(FntError::MalformedNameTable);
    }
    let mut pos: usize = entry_off as usize;
    let mut next_id: u16 = first_id;
    let ghost base = file_models(out@);
    let ghost mut acc: Seq<(u16, Seq<u8>)> = Seq::empty();
    proof {
        assert(base + acc =~= base);
    }
    loop
        invariant
            pos <= fnt@.len(),
            file_models(out@) == base + acc,
            dir_spec(fnt@, dir_index, prefix@, budget as nat, count) == match entries_spec(
                fnt@,
                pos as int,
                next_id,
                prefix@,
                budget as nat,
                count,
            ) {
                Ok(rest) => Ok::<Seq<(u16, Seq<u8>)>, FntError>(acc + rest),
                Err(e) => Err::<Seq<(u16, Seq<u8>)>, FntError>(e),
            },
        decreases fnt@.len() - pos,
    {
        if pos >= fnt.len() {
            return Err(FntError::MalformedNameTable);
        }
        let tag = fnt[pos];
        if tag == 0 {
            proof {
                assert(acc + Seq::<(u16, Seq<u8>)>::empty() =~= acc);
            }
            return Ok(());
        }
        let nlen = (tag & 0x7F) as usize;
        if fnt.len() - (pos + 1) < nlen {
            return Err(FntError::MalformedNameTable);
        }
        let mut path: Vec<u8> = prefix.clone();
        proof {
            assert(path@ =~= prefix@);
        }
        path.push(PATH_SEP);
        let mut k: usize = 0;
        while k < nlen
            invariant
                k <= nlen,
                pos + 1 + nlen <= fnt@.len(),
                path@ == prefix@ + seq![PATH_SEP] + fnt@.subrange(pos + 1, pos + 1 + k),
            decreases nlen - k,
        {
            proof {
                assert(prefix@ + seq![PATH_SEP] + fnt@.subrange(pos + 1, pos + 1 + k) + seq![
                    fnt@[pos + 1 + k]
                ] =~= prefix@ + seq![PATH_SEP] + fnt@.subrange(pos + 1, pos + 1 + (k + 1)));
            }
            path.push(fnt[pos + 1 + k]);
            k = k + 1;
        }
        proof {
            assert(path@ == prefix@ + seq![PATH_SEP] + fnt@.subrange(
                pos + 1,
                pos + 1 + nlen as int,
            ));
        }
        if tag & 0x80 != 0 {
            if fnt.len() - (pos + 1 + nlen) < 2 {
                return Err(FntError::MalformedNameTable);
            }
            let sub_id = crate::wire::read_le16(fnt, pos + 1 + nlen);
            if sub_id < 0xF000 {
                return Err(FntError::MalformedNameTable);
            }
            let sub_index = sub_id - 0xF000;
            if sub_index >= count {
                return Err(FntError::MalformedNameTable);
            }
            if budget == 0 {
                return Err(FntError::MalformedNameTable);
            }
            match resolve_dir(fnt, sub_index, &path, budget - 1, count, out) {
                Ok(()) => {},
                Err(e) => {
                    return Err(e);
                },
            }
            proof {
                let sub = dir_spec(
                    fnt@,
                    sub_index,
                    path@,
                    (budget - 1) as nat,
                    count,
                )->Ok_0;
                match entries_spec(
                    fnt@,
                    pos + 1 + nlen as int + 2,
                    next_id,
                    prefix@,
                    budget as nat,
                    count,
                ) {
                    Ok(rest) => {
                        assert(acc + (sub + rest) =~= (acc + sub) + rest);
                    },
                    Err(e) => {},
                }
                acc = acc + sub;
            }
            pos = pos + 1 + nlen + 2;
        } else {
            if next_id >= 0xF000 {
                return Err(FntError::MalformedNameTable);
            }
            let ghost path_model = path@;
            out.push(ResolvedFile { id: next_id, path });
            proof {
                assert(file_models(out@) =~= base + acc + seq![(next_id, path_model)]);
                match entries_spec(
                    fnt@,
                    pos + 1 + nlen as int,
                    (next_id + 1) as u16,
                    prefix@,
                    budget as nat,
                    count,
                ) {
                    Ok(rest) => {
                        assert(acc + (seq![(next_id, path_model)] + rest) =~= (acc + seq![
                            (next_id, path_model)
                        ]) + rest);
                    },
                    Err(e) => {},
                }
                acc = acc + seq![(next_id, path_model)];
                assert(base + acc =~= base + acc);
            }
            next_id = next_id + 1;
            pos = pos + 1 + nlen;
        }
    }
}

/// Resolves the hierarchical name table into its files, each with its id and
/// full path, in depth-first on-disk order.
pub fn resolve_name_table(fnt: &[u8]) -> (r: Result<Vec<ResolvedFile>, FntError>)
    ensures
        match r {
            Ok(v) => name_table_spec(fnt@) == Ok::<Seq<(u16, Seq<u8>)>, FntError>(file_models(v@)),
            Err(e) => name_table_spec(fnt@) == Err::<Seq<(u16, Seq<u8>)>, FntError>(e),
        },
{
    if fnt.len() < 8 {
        return Err(FntError::MalformedNameTable);
    }
    let count = crate::wire::read_le16(fnt, 6);
    if count == 0 || count > 0x1000 {
        return Err(FntError::MalformedNameTable);
    }
    let mut out: Vec<ResolvedFile> = Vec::new();
    let prefix: Vec<u8> = Vec::new();
    match resolve_dir(fnt, 0, &prefix, count, count, &mut out) {
        Ok(()) => {
            proof {
                assert(file_models(Seq::<ResolvedFile>::empty()) =~= Seq::<(u16, Seq<u8>)>::empty());
                match dir_spec(fnt@, 0, Seq::empty(), count as nat, count) {
                    Ok(files) => {
                        assert(Seq::<(u16, Seq<u8>)>::empty() + files =~= files);
                    },
                    Err(e) => {},
                }
            }
            Ok(out)
        },
        Err(e) => Err(e),
    }
}

} // verus!
