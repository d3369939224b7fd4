use vstd::prelude::*;

use crate::data::data_file::DataFile;
use crate::db::{recover, scan_file, scan_files, Engine};
use crate::errors::Errors;
use crate::index::new_indexer;
use crate::options::{IndexType, Options};

verus! {

/// The (id, contents) views of a run of data files.
pub open spec fn dfile_views(files: Seq<DataFile>) -> Seq<(u32, Seq<u8>)> {
    files.map_values(|f: DataFile| (f.id(), f.data()))
}

/// One file the caller found in the database directory: its name and its
/// bytes, both as they stand on disk.
pub struct DirEntry {
    pub name: Vec<u8>,
    pub data: Vec<u8>,
}

/// Whether a file name ends in ".data" and so belongs to the engine.
pub open spec fn has_data_suffix(name: Seq<u8>) -> bool {
    name.len() >= 5 && name.subrange(name.len() - 5, name.len() as int) == seq![
        46u8,
        100,
        97,
        116,
        97,
    ]
}

/// The value of a run of ASCII digits, most significant first.
pub open spec fn digits_value(s: Seq<u8>) -> nat
    decreases s.len(),
{
    if s.len() == 0 {
        0
    } else {
        digits_value(s.drop_last()) * 10 + (if 48 <= s.last() <= 57 {
            (s.last() - 48) as nat
        } else {
            0
        })
    }
}

/// The part of a data file name before its ".data" suffix.
pub open spec fn name_stem(name: Seq<u8>) -> Seq<u8> {
    name.subrange(0, name.len() - 5)
}

/// A data file name whose stem is a plain decimal number that fits a file
/// id.
pub open spec fn data_name_ok(name: Seq<u8>) -> bool {
    &&& has_data_suffix(name)
    &&& name_stem(name).len() > 0
    &&& forall|q: int| 0 <= q < name_stem(name).len() ==> 48 <= #[trigger] name_stem(name)[q] <= 57
    &&& digits_value(name_stem(name)) <= u32::MAX
}

/// The id a well-formed data file name carries.
pub open spec fn data_name_id(name: Seq<u8>) -> u32 {
    digits_value(name_stem(name)) as u32
}

fn has_data_suffix_exec(name: &Vec<u8>) -> (r: bool)
    ensures
        r == has_data_suffix(name@),
{
    if name.len() < 5 {
        return false;
    }
    let n = name.len();
    let r = name[n - 5] == 46 && name[n - 4] == 100 && name[n - 3] == 97 && name[n - 2] == 116
        && name[n - 1] == 97;
    proof {
        let sfx = name@.subrange(name@.len() - 5, name@.len() as int);
        if r {
            assert(sfx =~= seq![46u8, 100, 97, 116, 97]);
        } else {
            if sfx == seq![46u8, 100, 97, 116, 97] {
                assert(name@[name@.len() - 5] == sfx[0]);
                assert(name@[name@.len() - 4] == sfx[1]);
                assert(name@[name@.len() - 3] == sfx[2]);
                assert(name@[name@.len() - 2] == sfx[3]);
                assert(name@[name@.len() - 1] == sfx[4]);
            }
        }
    }
    r
}

/// Once a digit run has outgrown the id range, reading more digits cannot
/// bring it back.
proof fn lemma_digits_value_grows(s: Seq<u8>, i: int, j: int)
    requires
        0 <= i <= j <= s.len(),
    ensures
        digits_value(s.subrange(0, i)) <= digits_value(s.subrange(0, j)),
    decreases j - i,
{
    if i < j {
        lemma_digits_value_grows(s, i, j - 1);
        assert(s.subrange(0, j).drop_last() =~= s.subrange(0, j - 1));
        assert(digits_value(s.subrange(0, j)) >= digits_value(s.subrange(0, j - 1)));
    }
}

/// Reads the id out of a ".data" file name; `None` when the stem before the
/// suffix is empty, holds a non-digit, or overflows the id range.
fn parse_data_file_id(name: &Vec<u8>) -> (r: Option<u32>)
    requires
        has_data_suffix(name@),
    ensures
        match r {
            Some(id) => data_name_ok(name@) && id == data_name_id(name@),
            None => !data_name_ok(name@),
        },
{
    let stem_len = name.len() - 5;
    let ghost stem = name_stem(name@);
    if stem_len == 0 {
        return None;
    }
    let mut value: u32 = 0;
    let mut i: usize = 0;
    while i < stem_len
        invariant
            i <= stem_len,
            stem_len == stem.len(),
            stem == name_stem(name@),
            stem_len + 5 == name@.len(),
            forall|q: int| 0 <= q < i ==> 48 <= #[trigger] stem[q] <= 57,
            value == digits_value(stem.subrange(0, i as int)),
        decreases stem_len - i,
    {
        let b = name[i];
        proof {
            assert(stem[i as int] == name@[i as int]);
        }
        if b < 48 || b > 57 {
            return None;
        }
        let d = b - 48;
        if value > (u32::MAX - d as u32) / 10 {
            proof {
                assert(digits_value(stem.subrange(0, i + 1)) > u32::MAX) by {
                    assert(stem.subrange(0, i + 1).drop_last() =~= stem.subrange(0, i as int));
                    assert(stem.subrange(0, i + 1).last() == stem[i as int]);
                };
                lemma_digits_value_grows(stem, i + 1, stem.len() as int);
                assert(stem.subrange(0, stem.len() as int) =~= stem);
            }
            return None;
        }
        value = value * 10 + d as u32;
        proof {
            assert(stem.subrange(0, i + 1).drop_last() =~= stem.subrange(0, i as int));
            assert(stem.subrange(0, i + 1).last() == stem[i as int]);
        }
        i = i + 1;
    }
    proof {
        assert(stem.subrange(0, stem.len() as int) =~= stem);
    }
    Some(value)
}

/// Whether this entry is one of the engine's data files.
pub open spec fn is_data_entry(e: DirEntry) -> bool {
    has_data_suffix(e.name@)
}

/// The id and contents a directory entry stands for.
pub open spec fn entry_pair(e: DirEntry) -> (u32, Seq<u8>) {
    (data_name_id(e.name@), e.data@)
}

/// The id and contents of one parsed candidate.
pub open spec fn cand_pair(cands: Seq<(u32, Vec<u8>)>, c: int) -> (u32, Seq<u8>) {
    (cands[c].0, cands[c].1@)
}

/// Whether some ".data" entry of the directory stands for exactly this id
/// and contents.
pub open spec fn pair_from_entries(entries: Seq<DirEntry>, x: (u32, Seq<u8>)) -> bool {
    exists|t: int|
        0 <= t < entries.len() && is_data_entry(#[trigger] entries[t]) && data_name_ok(
            entries[t].name@,
        ) && x == entry_pair(entries[t])
}

/// Whether candidate `c` was parsed from a ".data" entry before `bound`.
pub open spec fn cand_from_early(
    entries: Seq<DirEntry>,
    bound: int,
    cands: Seq<(u32, Vec<u8>)>,
    c: int,
) -> bool {
    exists|q: int|
        0 <= q < bound && is_data_entry(#[trigger] entries[q]) && data_name_ok(entries[q].name@)
            && cand_pair(cands, c) == entry_pair(entries[q])
}

proof fn lemma_cand_from_early_mono(
    entries: Seq<DirEntry>,
    b1: int,
    b2: int,
    cands: Seq<(u32, Vec<u8>)>,
    c: int,
)
    requires
        b1 <= b2,
        cand_from_early(entries, b1, cands, c),
    ensures
        cand_from_early(entries, b2, cands, c),
{
    let q = choose|q: int|
        0 <= q < b1 && is_data_entry(#[trigger] entries[q]) && data_name_ok(entries[q].name@)
            && cand_pair(cands, c) == entry_pair(entries[q]);
    assert(0 <= q < b2 && is_data_entry(entries[q]) && data_name_ok(entries[q].name@) && cand_pair(
        cands,
        c,
    ) == entry_pair(entries[q]));
}

/// Two distinct ".data" entries of the directory carry the same id.
pub open spec fn duplicate_ids(entries: Seq<DirEntry>) -> bool {
    exists|t1: int, t2: int|
        0 <= t1 < entries.len() && 0 <= t2 < entries.len() && t1 != t2 && is_data_entry(
            #[trigger] entries[t1],
        ) && is_data_entry(#[trigger] entries[t2]) && data_name_ok(entries[t1].name@)
            && data_name_ok(entries[t2].name@) && data_name_id(entries[t1].name@) == data_name_id(
            entries[t2].name@,
        )
}

/// Some ".data" entry of the directory carries a name that does not parse.
pub open spec fn bad_data_name(entries: Seq<DirEntry>) -> bool {
    exists|t: int|
        0 <= t < entries.len() && is_data_entry(#[trigger] entries[t]) && !data_name_ok(
            entries[t].name@,
        )
}

/// Turns the directory's entries into data files, one per ".data" name, in
/// ascending id order. The directory is rejected exactly when a ".data" name
/// does not parse or two of them carry one id.
#[verifier::rlimit(100)]
#[verifier::spinoff_prover]
fn load_data_files(entries: &Vec<DirEntry>) -> (r: Result<Vec<DataFile>, Errors>)
    ensures
        match r {
            Ok(files) => {
                &&& !bad_data_name(entries@)
                &&& !duplicate_ids(entries@)
                &&& forall|i: int, j: int|
                    0 <= i < j < dfile_views(files@).len() ==> (#[trigger] dfile_views(files@)[i]).0
                        < (#[trigger] dfile_views(files@)[j]).0
                &&& forall|i: int| 0 <= i < files@.len() ==> (#[trigger] files@[i]).wf()
                &&& forall|t: int|
                    0 <= t < entries@.len() && is_data_entry(#[trigger] entries@[t])
                        ==> data_name_ok(entries@[t].name@) && exists|i: int|
                        0 <= i < dfile_views(files@).len() && #[trigger] dfile_views(files@)[i]
                            == entry_pair(entries@[t])
                &&& forall|i: int|
                    0 <= i < dfile_views(files@).len() ==> pair_from_entries(
                        entries@,
                        #[trigger] dfile_views(files@)[i],
                    )
            },
            Err(e) => e == Errors::DataDirectoryCorrupted && (bad_data_name(entries@)
                || duplicate_ids(entries@)),
        },
{
    let mut cands: Vec<(u32, Vec<u8>)> = Vec::new();
    let mut t: usize = 0;
    while t < entries.len()
        invariant
            t <= entries@.len(),
            forall|q: int|
                0 <= q < t && is_data_entry(#[trigger] entries@[q]) ==> data_name_ok(
                    entries@[q].name@,
                ) && exists|c: int|
                    0 <= c < cands@.len() && #[trigger] cand_pair(cands@, c) == entry_pair(
                        entries@[q],
                    ),
            forall|c: int|
                0 <= c < cands@.len() ==> pair_from_entries(
                    entries@,
                    #[trigger] cand_pair(cands@, c),
                ),
            forall|c: int|
                0 <= c < cands@.len() ==> cand_from_early(entries@, t as int, cands@, c),
            forall|c1: int, c2: int|
                0 <= c1 < c2 < cands@.len() ==> (#[trigger] cands@[c1]).0 != (
                #[trigger] cands@[c2]).0,
            forall|q1: int, q2: int|
                0 <= q1 < q2 < t && is_data_entry(#[trigger] entries@[q1]) && is_data_entry(
                    #[trigger] entries@[q2],
                ) ==> data_name_id(entries@[q1].name@) != data_name_id(entries@[q2].name@),
        decreases entries@.len() - t,
    {
        if has_data_suffix_exec(&entries[t].name) {
            match parse_data_file_id(&entries[t].name) {
                None => {
                    proof {
                        assert(bad_data_name(entries@)) by {
                            assert(is_data_entry(entries@[t as int]) && !data_name_ok(
                                entries@[t as int].name@,
                            ));
                        }
                    }
                    return Err(Errors::DataDirectoryCorrupted);
                },
                Some(id) => {
                    let mut c: usize = 0;
                    while c < cands.len()
                        invariant
                            c <= cands@.len(),
                            t < entries@.len(),
                            is_data_entry(entries@[t as int]),
                            data_name_ok(entries@[t as int].name@),
                            id == data_name_id(entries@[t as int].name@),
                            forall|q: int| 0 <= q < c ==> (#[trigger] cands@[q]).0 != id,
                            forall|c2: int|
                                0 <= c2 < cands@.len() ==> cand_from_early(
                                    entries@,
                                    t as int,
                                    cands@,
                                    c2,
                                ),
                        decreases cands@.len() - c,
                    {
                        if cands[c].0 == id {
                            proof {
                                assert(cand_from_early(entries@, t as int, cands@, c as int));
                                let q = choose|q: int|
                                    0 <= q < t && is_data_entry(#[trigger] entries@[q])
                                        && data_name_ok(entries@[q].name@) && cand_pair(
                                        cands@,
                                        c as int,
                                    ) == entry_pair(entries@[q]);
                                assert(data_name_id(entries@[q].name@) == cands@[c as int].0);
                                assert(duplicate_ids(entries@)) by {
                                    assert(q != t && is_data_entry(entries@[q]) && is_data_entry(
                                        entries@[t as int],
                                    ) && data_name_ok(entries@[q].name@) && data_name_ok(
                                        entries@[t as int].name@,
                                    ) && data_name_id(entries@[q].name@) == data_name_id(
                                        entries@[t as int].name@,
                                    ));
                                }
                            }
                            return Err(Errors::DataDirectoryCorrupted);
                        }
                        c = c + 1;
                    }
                    let ghost pre = cands@;
                    let data = crate::util::clone_bytes(&entries[t].data);
                    cands.push((id, data));
                    proof {
                        assert(cand_pair(cands@, pre.len() as int) == entry_pair(
                            entries@[t as int],
                        ));
                        assert forall|c2: int| 0 <= c2 < pre.len() implies cand_pair(cands@, c2)
                            == cand_pair(pre, c2) by {
                            assert(cands@[c2] == pre[c2]);
                        }
                        assert forall|q: int|
                            0 <= q < t + 1 && is_data_entry(#[trigger] entries@[q]) implies
                            data_name_ok(entries@[q].name@) && exists|c2: int|
                            0 <= c2 < cands@.len() && #[trigger] cand_pair(cands@, c2)
                                == entry_pair(entries@[q]) by {
                            if q < t {
                                let c2 = choose|c2: int|
                                    0 <= c2 < pre.len() && #[trigger] cand_pair(pre, c2)
                                        == entry_pair(entries@[q]);
                                assert(cand_pair(cands@, c2) == entry_pair(entries@[q]));
                            } else {
                                assert(cand_pair(cands@, pre.len() as int) == entry_pair(
                                    entries@[q],
                                ));
                            }
                        }
                        assert forall|c2: int| 0 <= c2 < cands@.len() implies pair_from_entries(
                            entries@,
                            #[trigger] cand_pair(cands@, c2),
                        ) by {
                            if c2 < pre.len() {
                                assert(cand_pair(cands@, c2) == cand_pair(pre, c2));
                                assert(pair_from_entries(entries@, cand_pair(pre, c2)));
                            } else {
                                assert(is_data_entry(entries@[t as int]));
                                assert(cand_pair(cands@, c2) == entry_pair(entries@[t as int]));
                            }
                        }
                        let ghost tb: int = t + 1;
                        assert forall|c2: int| 0 <= c2 < cands@.len() implies
                            #[trigger] cand_from_early(entries@, tb, cands@, c2) by {
                            if c2 < pre.len() {
                                assert(cand_pair(cands@, c2) == cand_pair(pre, c2));
                                assert(cand_from_early(entries@, t as int, pre, c2));
                                let q = choose|q: int|
                                    0 <= q < t && is_data_entry(#[trigger] entries@[q])
                                        && data_name_ok(entries@[q].name@) && cand_pair(pre, c2)
                                        == entry_pair(entries@[q]);
                                assert(0 <= q < tb && is_data_entry(entries@[q])
                                    && data_name_ok(entries@[q].name@) && cand_pair(cands@, c2)
                                    == entry_pair(entries@[q]));
                            } else {
                                assert(0 <= t < tb && is_data_entry(entries@[t as int])
                                    && data_name_ok(entries@[t as int].name@) && cand_pair(
                                    cands@,
                                    c2,
                                ) == entry_pair(entries@[t as int]));
                            }
                        }
                        assert forall|q1: int, q2: int|
                            0 <= q1 < q2 < t + 1 && is_data_entry(#[trigger] entries@[q1])
                                && is_data_entry(#[trigger] entries@[q2]) implies data_name_id(
                            entries@[q1].name@,
                        ) != data_name_id(entries@[q2].name@) by {
                            if q2 == t {
                                let c1 = choose|c1: int|
                                    0 <= c1 < pre.len() && #[trigger] cand_pair(pre, c1)
                                        == entry_pair(entries@[q1]);
                                assert(pre[c1].0 == data_name_id(entries@[q1].name@));
                                assert(pre[c1].0 != id);
                            }
                        }
                    }
                },
            }
        } else {
            proof {
                let tb: int = t + 1;
                assert forall|c2: int| 0 <= c2 < cands@.len() implies #[trigger] cand_from_early(
                    entries@,
                    tb,
                    cands@,
                    c2,
                ) by {
                    lemma_cand_from_early_mono(entries@, t as int, tb, cands@, c2);
                }
            }
        }
        t = t + 1;
    }
    let mut files: Vec<DataFile> = Vec::new();
    while cands.len() > 0
        invariant
            forall|q: int|
                0 <= q < entries@.len() && is_data_entry(#[trigger] entries@[q]) ==> data_name_ok(
                    entries@[q].name@,
                ) && ((exists|i: int|
                    0 <= i < dfile_views(files@).len() && #[trigger] dfile_views(files@)[i]
                        == entry_pair(entries@[q])) || (exists|c: int|
                    0 <= c < cands@.len() && #[trigger] cand_pair(cands@, c) == entry_pair(
                        entries@[q],
                    ))),
            forall|c: int|
                0 <= c < cands@.len() ==> pair_from_entries(
                    entries@,
                    #[trigger] cand_pair(cands@, c),
                ),
            forall|i: int|
                0 <= i < dfile_views(files@).len() ==> pair_from_entries(
                    entries@,
                    #[trigger] dfile_views(files@)[i],
                ),
            forall|c1: int, c2: int|
                0 <= c1 < c2 < cands@.len() ==> (#[trigger] cands@[c1]).0 != (
                #[trigger] cands@[c2]).0,
            forall|i: int, j: int|
                0 <= i < j < dfile_views(files@).len() ==> (#[trigger] dfile_views(files@)[i]).0 < (
                #[trigger] dfile_views(files@)[j]).0,
            forall|i: int, c: int|
                0 <= i < files@.len() && 0 <= c < cands@.len() ==> (#[trigger] dfile_views(
                    files@,
                )[i]).0 < (#[trigger] cand_pair(cands@, c)).0,
            forall|i: int| 0 <= i < files@.len() ==> (#[trigger] files@[i]).wf(),
            forall|q1: int, q2: int|
                0 <= q1 < q2 < entries@.len() && is_data_entry(#[trigger] entries@[q1])
                    && is_data_entry(#[trigger] entries@[q2]) ==> data_name_id(entries@[q1].name@)
                    != data_name_id(entries@[q2].name@),
        decreases cands@.len(),
    {
        let mut mi: usize = 0;
        let mut c: usize = 1;
        while c < cands.len()
            invariant
                c <= cands@.len(),
                mi < cands@.len(),
                cands@.len() > 0,
                forall|q: int|
                    0 <= q < c ==> (#[trigger] cand_pair(cands@, q)).0 >= cand_pair(
                        cands@,
                        mi as int,
                    ).0,
            decreases cands@.len() - c,
        {
            proof {
                assert(cand_pair(cands@, c as int).0 == cands@[c as int].0);
            }
            if cands[c].0 < cands[mi].0 {
                mi = c;
            }
            c = c + 1;
        }
        let ghost pre_cands = cands@;
        let ghost pre_files = files@;
        let (id, data) = cands.swap_remove(mi);
        proof {
            assert(cand_pair(pre_cands, mi as int) == (id, data@));
            assert forall|c2: int| 0 <= c2 < cands@.len() implies #[trigger] cand_pair(cands@, c2)
                == (if c2 == mi && mi < pre_cands.len() - 1 {
                cand_pair(pre_cands, pre_cands.len() - 1)
            } else {
                cand_pair(pre_cands, c2)
            }) by {
                if c2 == mi && mi < pre_cands.len() - 1 {
                    assert(cands@[c2] == pre_cands[pre_cands.len() - 1]);
                } else {
                    assert(cands@[c2] == pre_cands[c2]);
                }
            }
        }
        files.push(DataFile::new(id, data));
        proof {
            assert(dfile_views(files@) =~= dfile_views(pre_files).push((id, data@)));
            let nf = dfile_views(files@).len() - 1;
            assert(dfile_views(files@)[nf] == (id, data@));
            assert forall|i: int| 0 <= i < pre_files.len() implies #[trigger] dfile_views(files@)[i]
                == dfile_views(pre_files)[i] by {}
            assert forall|q: int|
                0 <= q < entries@.len() && is_data_entry(#[trigger] entries@[q]) implies
                data_name_ok(entries@[q].name@) && ((exists|i: int|
                0 <= i < dfile_views(files@).len() && #[trigger] dfile_views(files@)[i]
                    == entry_pair(entries@[q])) || (exists|c2: int|
                0 <= c2 < cands@.len() && #[trigger] cand_pair(cands@, c2) == entry_pair(
                    entries@[q],
                ))) by {
                let pair = entry_pair(entries@[q]);
                if exists|i: int|
                    0 <= i < dfile_views(pre_files).len() && #[trigger] dfile_views(pre_files)[i]
                        == pair {
                    let i = choose|i: int|
                        0 <= i < dfile_views(pre_files).len() && #[trigger] dfile_views(
                            pre_files,
                        )[i] == pair;
                    assert(dfile_views(files@)[i] == pair);
                } else {
                    let ci = choose|ci: int|
                        0 <= ci < pre_cands.len() && #[trigger] cand_pair(pre_cands, ci) == pair;
                    if ci == mi {
                        assert(dfile_views(files@)[nf] == pair);
                    } else if ci == pre_cands.len() - 1 {
                        if mi < pre_cands.len() - 1 {
                            assert(cand_pair(cands@, mi as int) == pair);
                        } else {
                            assert(ci == mi);
                        }
                    } else {
                        assert(cand_pair(cands@, ci) == pair);
                    }
                }
            }
            assert forall|c2: int| 0 <= c2 < cands@.len() implies pair_from_entries(
                entries@,
                #[trigger] cand_pair(cands@, c2),
            ) by {
                let src: int = if c2 == mi && mi < pre_cands.len() - 1 {
                    pre_cands.len() - 1
                } else {
                    c2
                };
                assert(pair_from_entries(entries@, cand_pair(pre_cands, src)));
                assert(cand_pair(cands@, c2) == cand_pair(pre_cands, src));
            }
            assert forall|i: int| 0 <= i < dfile_views(files@).len() implies pair_from_entries(
                entries@,
                #[trigger] dfile_views(files@)[i],
            ) by {
                if i < pre_files.len() {
                    assert(dfile_views(files@)[i] == dfile_views(pre_files)[i]);
                    assert(pair_from_entries(entries@, dfile_views(pre_files)[i]));
                } else {
                    assert(dfile_views(files@)[i] == (id, data@));
                    assert(pair_from_entries(entries@, cand_pair(pre_cands, mi as int)));
                }
            }
            // the moved-out minimum is below, and distinct from, everything left
            assert forall|c1: int, c2: int|
                0 <= c1 < c2 < cands@.len() implies (#[trigger] cands@[c1]).0 != (
            #[trigger] cands@[c2]).0 by {
                let s1: int = if c1 == mi && mi < pre_cands.len() - 1 {
                    pre_cands.len() - 1
                } else {
                    c1
                };
                let s2: int = if c2 == mi && mi < pre_cands.len() - 1 {
                    pre_cands.len() - 1
                } else {
                    c2
                };
                assert(cand_pair(cands@, c1) == cand_pair(pre_cands, s1));
                assert(cand_pair(cands@, c2) == cand_pair(pre_cands, s2));
                assert(s1 != s2);
                if s1 < s2 {
                    assert(pre_cands[s1].0 != pre_cands[s2].0);
                } else {
                    assert(pre_cands[s2].0 != pre_cands[s1].0);
                }
            }
            assert forall|i: int, j: int|
                0 <= i < j < dfile_views(files@).len() implies (#[trigger] dfile_views(
                    files@,
                )[i]).0 < (#[trigger] dfile_views(files@)[j]).0 by {
                if j < pre_files.len() {
                } else {
                    assert(dfile_views(files@)[j] == (id, data@));
                    if i < pre_files.len() {
                        assert(dfile_views(pre_files)[i].0 < cand_pair(pre_cands, mi as int).0);
                    }
                }
            }
            assert forall|i: int, c2: int|
                0 <= i < files@.len() && 0 <= c2 < cands@.len() implies (#[trigger] dfile_views(
                    files@,
                )[i]).0 < (#[trigger] cand_pair(cands@, c2)).0 by {
                let src: int = if c2 == mi && mi < pre_cands.len() - 1 {
                    pre_cands.len() - 1
                } else {
                    c2
                };
                assert(cand_pair(cands@, c2) == cand_pair(pre_cands, src));
                assert(src != mi);
                assert(cand_pair(pre_cands, src).0 >= cand_pair(pre_cands, mi as int).0);
                assert(if src < mi {
                    pre_cands[src].0 != pre_cands[mi as int].0
                } else {
                    pre_cands[mi as int].0 != pre_cands[src].0
                });
                if i < pre_files.len() {
                    assert(dfile_views(files@)[i] == dfile_views(pre_files)[i]);
                    assert(dfile_views(pre_files)[i].0 < cand_pair(pre_cands, src).0);
                } else {
                    assert(dfile_views(files@)[i] == (id, data@));
                }
            }
        }
    }
    proof {
        if bad_data_name(entries@) {
            let t2 = choose|t2: int|
                0 <= t2 < entries@.len() && is_data_entry(#[trigger] entries@[t2])
                    && !data_name_ok(entries@[t2].name@);
            assert(data_name_ok(entries@[t2].name@));
        }
        if duplicate_ids(entries@) {
            let (t1, t2) = choose|t1: int, t2: int|
                0 <= t1 < entries@.len() && 0 <= t2 < entries@.len() && t1 != t2 && is_data_entry(
                    #[trigger] entries@[t1],
                ) && is_data_entry(#[trigger] entries@[t2]) && data_name_ok(entries@[t1].name@)
                    && data_name_ok(entries@[t2].name@) && data_name_id(entries@[t1].name@)
                    == data_name_id(entries@[t2].name@);
            if t1 < t2 {
                assert(data_name_id(entries@[t1].name@) != data_name_id(entries@[t2].name@));
            } else {
                assert(data_name_id(entries@[t2].name@) != data_name_id(entries@[t1].name@));
            }
        }
    }
    Ok(files)
}

/// Rejects an empty directory path and a zero rollover size.
pub fn check_options(opts: &Options) -> (r: Option<Errors>)
    ensures
        r == (if opts.dir_path@.len() == 0 {
            Some(Errors::DirPathIsEmpty)
        } else if opts.data_file_size == 0 {
            Some(Errors::DataFileSizeTooSmall)
        } else {
            None::<Errors>
        }),
{
    if opts.dir_path.as_str().is_empty() {
        return Some(Errors::DirPathIsEmpty);
    }
    if opts.data_file_size == 0 {
        return Some(Errors::DataFileSizeTooSmall);
    }
    None
}

/// The file run an engine opened on these entries recovers from: the ".data"
/// entries by ascending id, or one fresh empty file with id zero when the
/// directory holds none.
pub open spec fn opened_files(files: Seq<(u32, Seq<u8>)>, entries: Seq<DirEntry>) -> bool {
    &&& forall|i: int, j: int|
        0 <= i < j < files.len() ==> (#[trigger] files[i]).0 < (#[trigger] files[j]).0
    &&& (if exists|t: int| 0 <= t < entries.len() && is_data_entry(#[trigger] entries[t]) {
        &&& forall|t: int|
            0 <= t < entries.len() && is_data_entry(#[trigger] entries[t]) ==> data_name_ok(
                entries[t].name@,
            ) && exists|i: int| 0 <= i < files.len() && #[trigger] files[i] == entry_pair(
                entries[t],
            )
        &&& forall|i: int|
            0 <= i < files.len() ==> pair_from_entries(entries, #[trigger] files[i])
    } else {
        files == seq![(0u32, Seq::<u8>::empty())]
    })
}

/// A run of decimal digits for `id`, most significant first, reads back as
/// `id`.
proof fn lemma_decimal_digits_value(id: nat, n: nat, s: Seq<u8>)
    requires
        s.len() == n,
        n >= 1,
        id < crate::data::data_file::pow10(n),
        forall|p: int|
            0 <= p < n ==> #[trigger] s[p] == crate::data::data_file::ascii_digit(
                id / crate::data::data_file::pow10((n - 1 - p) as nat),
            ),
    ensures
        digits_value(s) == id,
    decreases n,
{
    if n == 1 {
        assert(s.drop_last() =~= Seq::<u8>::empty());
        assert(s.last() == s[0]);
        assert(crate::data::data_file::pow10(0) == 1);
        assert(crate::data::data_file::pow10(n) == 10 * crate::data::data_file::pow10(0));
        assert(id < 10);
        assert(s[0] == crate::data::data_file::ascii_digit(id / crate::data::data_file::pow10(
            0,
        )));
        assert(id / crate::data::data_file::pow10(0) == id);
        assert(s[0] == crate::data::data_file::ascii_digit(id));
        assert(crate::data::data_file::ascii_digit(id) == (48 + id % 10) as u8);
        assert(s.last() == (48 + id % 10) as u8);
        assert(id % 10 == id);
        assert(digits_value(s) == digits_value(s.drop_last()) * 10 + (id % 10));
    } else {
        let id2 = id / 10;
        let s2 = s.drop_last();
        assert(id2 < crate::data::data_file::pow10((n - 1) as nat)) by {
            assert(crate::data::data_file::pow10(n) == 10 * crate::data::data_file::pow10(
                (n - 1) as nat,
            ));
            vstd::arithmetic::div_mod::lemma_multiply_divide_lt(
                id as int,
                crate::data::data_file::pow10((n - 1) as nat) as int,
                10,
            );
        };
        assert forall|p: int| 0 <= p < n - 1 implies #[trigger] s2[p]
            == crate::data::data_file::ascii_digit(
            id2 / crate::data::data_file::pow10((n - 2 - p) as nat),
        ) by {
            assert(s2[p] == s[p]);
            crate::data::data_file::lemma_pow10_pos((n - 2 - p) as nat);
            vstd::arithmetic::div_mod::lemma_div_denominator(
                id as int,
                10,
                crate::data::data_file::pow10((n - 2 - p) as nat) as int,
            );
            assert(crate::data::data_file::pow10((n - 1 - p) as nat) == 10
                * crate::data::data_file::pow10((n - 2 - p) as nat));
        }
        lemma_decimal_digits_value(id2, (n - 1) as nat, s2);
        assert(s.last() == crate::data::data_file::ascii_digit(id)) by {
            assert(crate::data::data_file::pow10(0) == 1);
            assert(s[n - 1] == crate::data::data_file::ascii_digit(
                id / crate::data::data_file::pow10(0),
            ));
        }
        assert(digits_value(s) == id2 * 10 + id % 10);
        assert(id2 * 10 + id % 10 == id) by (nonlinear_arith)
            requires
                id2 == id / 10,
        ;
    }
}

/// The name a file is exported under parses back to its own id: writing and
/// re-listing a directory round-trips every file id.
pub proof fn lemma_data_file_name_parses(id: u32)
    ensures
        has_data_suffix(crate::data::data_file::data_file_name(id as nat)),
        data_name_ok(crate::data::data_file::data_file_name(id as nat)),
        data_name_id(crate::data::data_file::data_file_name(id as nat)) == id,
{
    let pd = crate::data::data_file::padded_digits(id as nat);
    let name = crate::data::data_file::data_file_name(id as nat);
    let n = pd.len();
    assert(name.len() == n + 5);
    assert(name.subrange(name.len() - 5, name.len() as int) =~= seq![46u8, 100, 97, 116, 97]);
    assert(name_stem(name) =~= pd);
    assert(crate::data::data_file::pow10(9) == 1000000000) by {
        reveal_with_fuel(crate::data::data_file::pow10, 10);
    };
    assert(crate::data::data_file::pow10(10) == 10000000000) by {
        reveal_with_fuel(crate::data::data_file::pow10, 11);
    };
    if id < 1000000000 {
        assert(n == 9);
        assert forall|p: int| 0 <= p < 9 implies #[trigger] pd[p]
            == crate::data::data_file::ascii_digit(
            id as nat / crate::data::data_file::pow10((8 - p) as nat),
        ) by {}
        lemma_decimal_digits_value(id as nat, 9, pd);
    } else {
        assert(n == 10);
        assert forall|p: int| 0 <= p < 10 implies #[trigger] pd[p]
            == crate::data::data_file::ascii_digit(
            id as nat / crate::data::data_file::pow10((9 - p) as nat),
        ) by {
            if p == 0 {
                assert(pd[0] == crate::data::data_file::ascii_digit(id as nat / 1000000000));
            } else {
                assert(pd[p] == crate::data::data_file::ascii_digit(
                    id as nat / crate::data::data_file::pow10((8 - (p - 1)) as nat),
                ));
            }
        }
        lemma_decimal_digits_value(id as nat, 10, pd);
    }
    assert forall|q: int| 0 <= q < name_stem(name).len() implies 48 <= #[trigger] name_stem(
        name,
    )[q] <= 57 by {
        assert(name_stem(name)[q] == pd[q]);
    }
}

/// Two strictly id-sorted runs with the same members are the same run.
#[verifier::rlimit(100)]
#[verifier::spinoff_prover]
proof fn lemma_sorted_same_members(f1: Seq<(u32, Seq<u8>)>, f2: Seq<(u32, Seq<u8>)>)
    requires
        forall|i: int, j: int| 0 <= i < j < f1.len() ==> (#[trigger] f1[i]).0 < (#[trigger] f1[j]).0,
        forall|i: int, j: int| 0 <= i < j < f2.len() ==> (#[trigger] f2[i]).0 < (#[trigger] f2[j]).0,
        forall|i: int| 0 <= i < f1.len() ==> f2.contains(#[trigger] f1[i]),
        forall|j: int| 0 <= j < f2.len() ==> f1.contains(#[trigger] f2[j]),
    ensures
        f1 == f2,
    decreases f1.len(),
{
    if f1.len() == 0 {
        if f2.len() > 0 {
            assert(f1.contains(f2[0]));
        }
        assert(f1 =~= f2);
    } else if f2.len() == 0 {
        assert(f2.contains(f1[0]));
    } else {
        let j = choose|j: int| 0 <= j < f2.len() && f2[j] == f1[0];
        let i = choose|i: int| 0 <= i < f1.len() && f1[i] == f2[0];
        assert(f2[0].0 <= f2[j].0);
        assert(f1[0].0 <= f1[i].0);
        assert(f1[0].0 == f2[0].0);
        assert(j == 0) by {
            if j > 0 {
                assert(f2[0].0 < f2[j].0);
            }
        }
        assert(f1[0] == f2[0]);
        let t1 = f1.skip(1);
        let t2 = f2.skip(1);
        assert forall|i2: int, j2: int| 0 <= i2 < j2 < t1.len() implies (#[trigger] t1[i2]).0 < (
        #[trigger] t1[j2]).0 by {
            assert(t1[i2] == f1[i2 + 1]);
            assert(t1[j2] == f1[j2 + 1]);
        }
        assert forall|i2: int, j2: int| 0 <= i2 < j2 < t2.len() implies (#[trigger] t2[i2]).0 < (
        #[trigger] t2[j2]).0 by {
            assert(t2[i2] == f2[i2 + 1]);
            assert(t2[j2] == f2[j2 + 1]);
        }
        assert forall|i2: int| 0 <= i2 < t1.len() implies t2.contains(#[trigger] t1[i2]) by {
            assert(t1[i2] == f1[i2 + 1]);
            assert(f2.contains(f1[i2 + 1]));
            let j2 = choose|j2: int| 0 <= j2 < f2.len() && f2[j2] == f1[i2 + 1];
            assert(f1[0].0 < f1[i2 + 1].0);
            assert(j2 != 0);
            assert(t2[j2 - 1] == f1[i2 + 1]);
        }
        assert forall|j2: int| 0 <= j2 < t2.len() implies t1.contains(#[trigger] t2[j2]) by {
            assert(t2[j2] == f2[j2 + 1]);
            assert(f1.contains(f2[j2 + 1]));
            let i2 = choose|i2: int| 0 <= i2 < f1.len() && f1[i2] == f2[j2 + 1];
            assert(f2[0].0 < f2[j2 + 1].0);
            assert(i2 != 0);
            assert(t1[i2 - 1] == f2[j2 + 1]);
        }
        lemma_sorted_same_members(t1, t2);
        assert forall|k: int| 0 <= k < f1.len() implies f1[k] == f2[k] by {
            if k > 0 {
                assert(t1[k - 1] == t2[k - 1]);
            }
        }
        assert(f1 =~= f2);
    }
}

/// A directory determines its file run: any two runs that open it are equal.
#[verifier::rlimit(100)]
#[verifier::spinoff_prover]
pub proof fn lemma_opened_files_unique(
    f1: Seq<(u32, Seq<u8>)>,
    f2: Seq<(u32, Seq<u8>)>,
    entries: Seq<DirEntry>,
)
    requires
        opened_files(f1, entries),
        opened_files(f2, entries),
    ensures
        f1 == f2,
{
    if exists|t: int| 0 <= t < entries.len() && is_data_entry(#[trigger] entries[t]) {
        assert forall|i: int| 0 <= i < f1.len() implies f2.contains(#[trigger] f1[i]) by {
            assert(pair_from_entries(entries, f1[i]));
            let t = choose|t: int|
                0 <= t < entries.len() && is_data_entry(#[trigger] entries[t]) && data_name_ok(
                    entries[t].name@,
                ) && f1[i] == entry_pair(entries[t]);
            let j = choose|j: int| 0 <= j < f2.len() && #[trigger] f2[j] == entry_pair(entries[t]);
            assert(f2[j] == f1[i]);
        }
        assert forall|j: int| 0 <= j < f2.len() implies f1.contains(#[trigger] f2[j]) by {
            assert(pair_from_entries(entries, f2[j]));
            let t = choose|t: int|
                0 <= t < entries.len() && is_data_entry(#[trigger] entries[t]) && data_name_ok(
                    entries[t].name@,
                ) && f2[j] == entry_pair(entries[t]);
            let i = choose|i: int| 0 <= i < f1.len() && #[trigger] f1[i] == entry_pair(entries[t]);
            assert(f1[i] == f2[j]);
        }
        lemma_sorted_same_members(f1, f2);
    }
}

/// The entries `export_files` writes open back to exactly the engine's own
/// file run: they all parse, no id repeats, and the one run any open of them
/// recovers from is the engine's `all_file_views`.
#[verifier::rlimit(100)]
#[verifier::spinoff_prover]
pub proof fn lemma_export_reopens(e: Engine, exported: Seq<DirEntry>)
    requires
        e.files_wf(),
        exported.len() == e.older_views().len() + 1,
        forall|i: int|
            0 <= i < e.older_views().len() ==> (#[trigger] exported[i]).name@
                == crate::data::data_file::data_file_name((e.older_views()[i]).0 as nat)
                && exported[i].data@ == (e.older_views()[i]).1,
        exported[exported.len() - 1].name@ == crate::data::data_file::data_file_name(
            e.active_id() as nat,
        ),
        exported[exported.len() - 1].data@ == e.spec_active().data(),
    ensures
        !bad_data_name(exported),
        !duplicate_ids(exported),
        opened_files(e.all_file_views(), exported),
        forall|files: Seq<(u32, Seq<u8>)>|
            #[trigger] opened_files(files, exported) ==> files == e.all_file_views(),
{
    let run = e.all_file_views();
    let n = e.older_views().len() as int;
    assert(run.len() == n + 1);
    assert(run[n] == (e.active_id(), e.spec_active().data()));
    // every exported entry stands for exactly its file
    assert forall|t: int| 0 <= t < exported.len() implies is_data_entry(#[trigger] exported[t])
        && data_name_ok(exported[t].name@) && entry_pair(exported[t]) == run[t] by {
        if t < n {
            lemma_data_file_name_parses((e.older_views()[t]).0);
            assert(run[t] == e.older_views()[t]);
        } else {
            lemma_data_file_name_parses(e.active_id());
        }
    }
    assert(!bad_data_name(exported)) by {
        if bad_data_name(exported) {
            let t = choose|t: int|
                0 <= t < exported.len() && is_data_entry(#[trigger] exported[t]) && !data_name_ok(
                    exported[t].name@,
                );
            assert(data_name_ok(exported[t].name@));
        }
    }
    // the run's ids ascend strictly, so no two entries share one
    assert forall|i: int, j: int| 0 <= i < j < run.len() implies (#[trigger] run[i]).0 < (
    #[trigger] run[j]).0 by {
        if j < n {
            assert(run[i] == e.older_views()[i]);
            assert(run[j] == e.older_views()[j]);
        } else {
            if i < n {
                assert(run[i] == e.older_views()[i]);
            }
        }
    }
    assert(!duplicate_ids(exported)) by {
        if duplicate_ids(exported) {
            let (t1, t2) = choose|t1: int, t2: int|
                0 <= t1 < exported.len() && 0 <= t2 < exported.len() && t1 != t2 && is_data_entry(
                    #[trigger] exported[t1],
                ) && is_data_entry(#[trigger] exported[t2]) && data_name_ok(exported[t1].name@)
                    && data_name_ok(exported[t2].name@) && data_name_id(exported[t1].name@)
                    == data_name_id(exported[t2].name@);
            assert(entry_pair(exported[t1]).0 == run[t1].0);
            assert(entry_pair(exported[t2]).0 == run[t2].0);
            if t1 < t2 {
                assert(run[t1].0 < run[t2].0);
            } else {
                assert(run[t2].0 < run[t1].0);
            }
        }
    }
    assert(opened_files(run, exported)) by {
        assert(exists|t: int| 0 <= t < exported.len() && is_data_entry(#[trigger] exported[t]))
            by {
            assert(is_data_entry(exported[0]));
        }
        assert forall|t: int|
            0 <= t < exported.len() && is_data_entry(#[trigger] exported[t]) implies data_name_ok(
            exported[t].name@,
        ) && exists|i: int| 0 <= i < run.len() && #[trigger] run[i] == entry_pair(exported[t]) by {
            assert(run[t] == entry_pair(exported[t]));
        }
        assert forall|i: int| 0 <= i < run.len() implies pair_from_entries(
            exported,
            #[trigger] run[i],
        ) by {
            assert(is_data_entry(exported[i]) && data_name_ok(exported[i].name@) && run[i]
                == entry_pair(exported[i]));
        }
    }
    assert forall|files: Seq<(u32, Seq<u8>)>| #[trigger] opened_files(files, exported) implies
        files == run by {
        lemma_opened_files_unique(files, run, exported);
    }
}

/// A durable engine written out and reopened rebuilds exactly its current
/// store: the exported names all parse, any run that opens them recovers,
/// and what it recovers is the engine's own directory and counter. Together
/// with `open`'s contract, reopening the files `export_files` hands out is
/// owed an engine with this one's index and sequence number.
pub proof fn lemma_reopen_rebuilds_store(e: Engine, exported: Seq<DirEntry>)
    requires
        e.files_wf(),
        e.durable(),
        exported.len() == e.older_views().len() + 1,
        forall|i: int|
            0 <= i < e.older_views().len() ==> (#[trigger] exported[i]).name@
                == crate::data::data_file::data_file_name((e.older_views()[i]).0 as nat)
                && exported[i].data@ == (e.older_views()[i]).1,
        exported[exported.len() - 1].name@ == crate::data::data_file::data_file_name(
            e.active_id() as nat,
        ),
        exported[exported.len() - 1].data@ == e.spec_active().data(),
    ensures
        !bad_data_name(exported),
        !duplicate_ids(exported),
        forall|files: Seq<(u32, Seq<u8>)>|
            #[trigger] opened_files(files, exported) ==> recover(files) is Some && recover(
                files,
            )->Some_0.index == e.spec_indexer().as_map() && recover(files)->Some_0.max_seq
                == e.spec_seq_no(),
{
    lemma_export_reopens(e, exported);
    assert forall|files: Seq<(u32, Seq<u8>)>| #[trigger] opened_files(files, exported) implies
        recover(files) is Some && recover(files)->Some_0.index == e.spec_indexer().as_map()
            && recover(files)->Some_0.max_seq == e.spec_seq_no() by {
        assert(files == e.all_file_views());
    }
}

impl Engine {
    /// The engine's files as directory entries, ready to be written back to
    /// disk: each file under its own ".data" name, the active file last.
    pub fn export_files(&self) -> (r: Vec<DirEntry>)
        ensures
            r@.len() == self.older_views().len() + 1,
            forall|i: int|
                0 <= i < self.older_views().len() ==> (#[trigger] r@[i]).name@
                    == crate::data::data_file::data_file_name(
                    (self.older_views()[i]).0 as nat,
                ) && r@[i].data@ == (self.older_views()[i]).1,
            r@[r@.len() - 1].name@ == crate::data::data_file::data_file_name(
                self.active_id() as nat,
            ),
            r@[r@.len() - 1].data@ == self.spec_active().data(),
    {
        let mut out: Vec<DirEntry> = Vec::new();
        let mut i: usize = 0;
        while i < self.older_files.len()
            invariant
                i <= self.older_files@.len(),
                out@.len() == i,
                forall|q: int|
                    0 <= q < i ==> (#[trigger] out@[q]).name@
                        == crate::data::data_file::data_file_name(
                        (self.older_views()[q]).0 as nat,
                    ) && out@[q].data@ == (self.older_views()[q]).1,
            decreases self.older_files@.len() - i,
        {
            proof {
                assert(self.older_views()[i as int] == (
                    self.older_files@[i as int].id(),
                    self.older_files@[i as int].data(),
                ));
            }
            let name = crate::data::data_file::get_data_file_name(
                self.older_files[i].get_file_id(),
            );
            let data = self.older_files[i].contents();
            out.push(DirEntry { name, data });
            i = i + 1;
        }
        let name = crate::data::data_file::get_data_file_name(self.active_file.get_file_id());
        let data = self.active_file.contents();
        out.push(DirEntry { name, data });
        proof {
            crate::db::lemma_engine_fields(*self);
        }
        out
    }

    /// Opens the engine on what the database directory held: checks the
    /// options, loads every ".data" file, the largest id as the active file,
    /// and rebuilds the key directory and the sequence counter by replaying
    /// the records, discarding batches whose terminator never made it to
    /// disk. Well-formed options and entries whose file run recovers are
    /// owed an engine.
    #[verifier::rlimit(100)]
    #[verifier::spinoff_prover]
    pub fn open(opts: Options, entries: Vec<DirEntry>) -> (r: Result<Engine, Errors>)
        requires
            opts.index_type == IndexType::BTree,
        ensures
            r == Err::<Engine, Errors>(Errors::DirPathIsEmpty) <==> opts.dir_path@.len() == 0,
            r == Err::<Engine, Errors>(Errors::DataFileSizeTooSmall) <==> (opts.dir_path@.len()
                > 0 && opts.data_file_size == 0),
            (opts.dir_path@.len() > 0 && opts.data_file_size > 0 && !bad_data_name(entries@)
                && !duplicate_ids(entries@) && (forall|files: Seq<(u32, Seq<u8>)>|
                #[trigger] opened_files(files, entries@) ==> recover(files) is Some)) ==> r is Ok,
            r == Err::<Engine, Errors>(Errors::DataDirectoryCorrupted) ==> bad_data_name(entries@)
                || duplicate_ids(entries@) || (exists|files: Seq<(u32, Seq<u8>)>|
                #[trigger] opened_files(files, entries@) && recover(files) is None),
            r == Err::<Engine, Errors>(Errors::InvalidLogRecordCrc) ==> exists|
                files: Seq<(u32, Seq<u8>)>,
            |
                #[trigger] opened_files(files, entries@) && scan_files(files) is None,
            match r {
                Ok(e) => {
                    &&& e.wf()
                    &&& e.durable()
                    &&& e.spec_options() == opts
                    &&& exists|files: Seq<(u32, Seq<u8>)>|
                        {
                            &&& #[trigger] opened_files(files, entries@)
                            &&& recover(files) matches Some(st) && e.spec_indexer().as_map()
                                == st.index && e.spec_seq_no() == st.max_seq
                            &&& files.len() > 0
                            &&& e.older_views() == files.take(files.len() - 1)
                            &&& e.active_id() == files[files.len() - 1].0
                            &&& (scan_file(files[files.len() - 1].0, files[files.len() - 1].1, 0)
                                matches Some(p) && e.spec_active().data() == files[files.len()
                                - 1].1.subrange(0, p.1))
                        }
                },
                Err(e) => e == Errors::DirPathIsEmpty || e == Errors::DataFileSizeTooSmall || e
                    == Errors::DataDirectoryCorrupted || e == Errors::InvalidLogRecordCrc,
            },
    {
        match check_options(&opts) {
            Some(e) => {
                return Err(e);
            },
            None => (),
        }
        let index_type = opts.index_type;
        let mut data_files = match load_data_files(&entries) {
            Ok(fs) => fs,
            Err(e) => {
                return Err(e);
            },
        };
        let ghost loaded = dfile_views(data_files@);
        let active_file = match data_files.pop() {
            Some(f) => f,
            None => DataFile::new(0, Vec::new()),
        };
        let mut engine = Engine {
            options: opts,
            active_file,
            older_files: data_files,
            indexer: new_indexer(index_type),
            seq_no: 0,
        };
        proof {
            if loaded.len() > 0 {
                assert(engine.older_views() =~= loaded.subrange(0, loaded.len() - 1));
                assert(engine.all_file_views() =~= loaded);
                assert(engine.active_id() == loaded[loaded.len() - 1].0);
                assert(engine.spec_active().wf());
                assert forall|i: int| 0 <= i < engine.older_views().len() implies (
                #[trigger] engine.older_views()[i]).0 < engine.active_id() by {
                    assert(engine.older_views()[i] == loaded[i]);
                    assert(loaded[i].0 < loaded[loaded.len() - 1].0);
                }
            } else {
                assert(engine.older_views() =~= Seq::<(u32, Seq<u8>)>::empty());
                assert(engine.all_file_views() =~= seq![(0u32, Seq::<u8>::empty())]);
            }
            assert(engine.spec_indexer().as_map() =~= Map::<
                Seq<u8>,
                crate::data::log_record::LogRecordPos,
            >::empty());
            assert(engine.files_wf());
        }
        let ghost pre_views = engine.all_file_views();
        proof {
            if exists|t: int| 0 <= t < entries@.len() && is_data_entry(#[trigger] entries@[t]) {
                let t0 = choose|t: int|
                    0 <= t < entries@.len() && is_data_entry(#[trigger] entries@[t]);
                assert(exists|i: int|
                    0 <= i < loaded.len() && #[trigger] loaded[i] == entry_pair(entries@[t0]));
                assert(loaded.len() > 0);
                assert(pre_views == loaded);
            } else {
                if loaded.len() > 0 {
                    assert(pair_from_entries(entries@, loaded[0]));
                }
                assert(pre_views =~= seq![(0u32, Seq::<u8>::empty())]);
            }
            assert(opened_files(pre_views, entries@));
        }
        match engine.load_index_from_data_files() {
            Err(e) => {
                proof {
                    assert(recover(pre_views) is None);
                    if e == Errors::InvalidLogRecordCrc {
                        assert(scan_files(pre_views) is None);
                    }
                }
                return Err(e);
            },
            Ok(()) => (),
        }
        proof {
            let n = pre_views.len() - 1;
            let aid = pre_views[n].0;
            let adata = pre_views[n].1;
            assert(engine.older_views() == pre_views.take(n)) by {
                assert(pre_views.take(n) =~= engine.older_views());
            }
            assert(pre_views =~= pre_views.take(n) + seq![pre_views[n]]);
            crate::db::lemma_scan_files_append(pre_views.take(n), seq![pre_views[n]]);
            assert(scan_files(pre_views) is Some);
            assert(seq![pre_views[n]].skip(1) =~= Seq::<(u32, Seq<u8>)>::empty());
            assert(seq![pre_views[n]][0] == pre_views[n]);
            assert(scan_files(Seq::<(u32, Seq<u8>)>::empty()) == Some(Seq::<
                (crate::data::log_record::LogRecordView, crate::data::log_record::LogRecordPos),
            >::empty()));
            assert(scan_file(aid, adata, 0) is Some);
            let sp = scan_file(aid, adata, 0)->Some_0;
            let end = sp.1;
            crate::db::lemma_scan_end_bounds(aid, adata, 0);
            crate::db::lemma_scan_end_upper(aid, adata, 0);
            // the truncated active file scans to the same records
            crate::db::lemma_scan_prefix(aid, adata, 0, end);
            let cut = adata.subrange(0, end);
            assert(engine.spec_active().data() == cut);
            assert(engine.active_id() == aid);
            // so the run the engine now holds scans, and replays, the same
            let now_views = engine.all_file_views();
            assert(now_views =~= pre_views.take(n) + seq![(aid, cut)]);
            crate::db::lemma_scan_files_append(pre_views.take(n), seq![(aid, cut)]);
            assert(seq![(aid, cut)].skip(1) =~= Seq::<(u32, Seq<u8>)>::empty());
            assert(seq![(aid, cut)][0] == (aid, cut));
            assert(scan_files(now_views) == scan_files(pre_views));
            assert(recover(now_views) == recover(pre_views));
            // every batch buffered at the end of replay sits at or below the
            // counter the replay produced
            let recs = scan_files(pre_views)->Some_0;
            assert(crate::db::staged_bounded(crate::db::replay_init()));
            crate::db::lemma_replay_staged_bounded(crate::db::replay_init(), recs);
            assert(engine.durable());
        }
        Ok(engine)
    }
}

} // verus!
