//! The log-structured storage engine.
//!
//! The engine's entire persistent state is the sequence of generation
//! log files, modelled byte for byte.  A single specification,
//! [`spec_load`], says what any list of log files replays to: the
//! in-memory index, the live key/value map, the stale-byte count and
//! the highest sequence number.  Every operation is verified to keep
//! the concrete store equal to the replay of its own logs, so
//! recovery, reads, writes and compaction all answer to one
//! definition.

use vstd::prelude::*;
use vstd::bytes::{spec_u32_from_le_bytes, spec_u32_to_le_bytes, u32_from_le_bytes, u32_to_le_bytes};
use vstd::string::StringExecFns;

use crate::bytesutil::copy_range;

use crate::codec::{
    spec_encode_record, spec_parse_record, Command, CommandView, KvsCommand, RecordView,
    CURRENT_SCHEMA_VERSION,
};
use crate::error::KvsError;
use crate::index::{
    index_contains_key, index_entries, index_get, index_insert, index_new, index_remove,
    index_view, spec_live_len, lemma_live_len_insert, lemma_live_len_nonneg, lemma_live_len_pointwise,
    lemma_live_len_remove,
    CommandPos, KeyIndex,
};
use crate::logset::LogFile;

verus! {

/// Compaction is triggered once this many stale bytes accumulate.
pub const COMPACTION_THRESHOLD: u64 = 1024 * 1024;

/// The largest combined key and value byte length a single write
/// accepts; it keeps every record within its 32-bit length prefix.
pub const PAYLOAD_LIMIT: u64 = 0xFFFF_0000;

/// Writes are refused once the log set grows to within a few
/// gigabytes of the 64-bit offset space.
pub const TOTAL_BYTES_LIMIT: u64 = u64::MAX - 0x2_0000_0000;

/// Saturating 64-bit addition, the arithmetic of the stale-byte
/// counter.
pub open spec fn sat_add(a: u64, b: u64) -> u64 {
    if a + b > u64::MAX {
        u64::MAX
    } else {
        (a + b) as u64
    }
}

/// Saturating 64-bit addition.
pub fn sat_add_u64(a: u64, b: u64) -> (r: u64)
    ensures
        r == sat_add(a, b),
{
    if a > u64::MAX - b {
        u64::MAX
    } else {
        a + b
    }
}

/// What a replay of some logs yields.
pub struct StoreState {
    /// Key to the location of its most recent Set record.
    pub index: Map<Seq<char>, CommandPos>,
    /// The live contents: key to its current value.
    pub model: Map<Seq<char>, Seq<char>>,
    /// Bytes in the logs that no longer contribute to the live state.
    pub uncompacted: u64,
    /// The largest sequence number seen.
    pub highest_seq: u64,
}

/// The state an empty log set replays to.
pub open spec fn empty_state() -> StoreState {
    StoreState {
        index: Map::empty(),
        model: Map::empty(),
        uncompacted: 0,
        highest_seq: 0,
    }
}

/// The effect of one valid record on the replay state.  A Set binds
/// the key and retires any record it supersedes; a Remove retires
/// both the removed Set and itself.
pub open spec fn spec_apply_record(
    st: StoreState,
    r: RecordView,
    generation: u64,
    start: u64,
    len: u64,
) -> StoreState
    recommends
        r.crc_ok(),
{
    let highest = if r.sequence_number > st.highest_seq {
        r.sequence_number
    } else {
        st.highest_seq
    };
    match r.command {
        Some(CommandView::SetCmd { key, value }) => StoreState {
            index: st.index.insert(key, CommandPos { generation, pos: start, len }),
            model: st.model.insert(key, value),
            uncompacted: if st.index.dom().contains(key) {
                sat_add(st.uncompacted, st.index[key].len)
            } else {
                st.uncompacted
            },
            highest_seq: highest,
        },
        Some(CommandView::RemoveCmd { key }) => StoreState {
            index: st.index.remove(key),
            model: st.model.remove(key),
            uncompacted: sat_add(
                if st.index.dom().contains(key) {
                    sat_add(st.uncompacted, st.index[key].len)
                } else {
                    st.uncompacted
                },
                len,
            ),
            highest_seq: highest,
        },
        None => st,
    }
}

/// Why a replay failed, and the error each reason surfaces as.
pub enum LoadFailure {
    /// A partial length prefix or a prefix that overruns the file.
    Truncated,
    /// Record bytes that fail structural decoding.
    Malformed,
    /// A record whose checksum does not match its payload.
    Corrupted,
}

/// Replays one file from `pos`: reads a 4-byte little-endian length
/// prefix and that many record bytes, decodes, verifies, applies, and
/// repeats until a clean end of file.
pub open spec fn spec_replay_file(
    st: StoreState,
    data: Seq<u8>,
    generation: u64,
    pos: int,
) -> Result<StoreState, LoadFailure>
    decreases data.len() - pos,
{
    if pos < 0 {
        Err(LoadFailure::Truncated)
    } else if pos == data.len() {
        Ok(st)
    } else if pos + 4 > data.len() {
        Err(LoadFailure::Truncated)
    } else {
        let n = spec_u32_from_le_bytes(data.subrange(pos, pos + 4)) as int;
        if pos + 4 + n > data.len() {
            Err(LoadFailure::Truncated)
        } else {
            match spec_parse_record(data.subrange(pos + 4, pos + 4 + n)) {
                None => Err(LoadFailure::Malformed),
                Some(r) => {
                    if !r.crc_ok() {
                        Err(LoadFailure::Corrupted)
                    } else {
                        spec_replay_file(
                            spec_apply_record(st, r, generation, pos as u64, (4 + n) as u64),
                            data,
                            generation,
                            pos + 4 + n,
                        )
                    }
                },
            }
        }
    }
}

/// Replays a list of files in order, starting from file `i`.
pub open spec fn spec_replay_logs(st: StoreState, files: Seq<LogFile>, i: int) -> Result<
    StoreState,
    LoadFailure,
>
    decreases files.len() - i,
{
    if i < 0 || i >= files.len() {
        Ok(st)
    } else {
        match spec_replay_file(st, files[i].data@, files[i].generation, 0) {
            Err(f) => Err(f),
            Ok(st2) => spec_replay_logs(st2, files, i + 1),
        }
    }
}

/// What a whole log set replays to, from nothing.
pub open spec fn spec_load(files: Seq<LogFile>) -> Result<StoreState, LoadFailure> {
    spec_replay_logs(empty_state(), files, 0)
}

/// The bytes the log set occupies from file `i` on.
pub open spec fn spec_total_len_from(files: Seq<LogFile>, i: int) -> int
    decreases files.len() - i,
{
    if i < 0 || i >= files.len() {
        0
    } else {
        files[i].data@.len() + spec_total_len_from(files, i + 1)
    }
}

/// The total number of bytes the log set occupies.
pub open spec fn spec_total_len(files: Seq<LogFile>) -> int {
    spec_total_len_from(files, 0)
}

/// Extending the last file grows the total by exactly the extension.
proof fn lemma_total_len_extend_last(files: Seq<LogFile>, files2: Seq<LogFile>, ext: Seq<u8>, i: int)
    requires
        files.len() >= 1,
        files2.len() == files.len(),
        forall|j: int| 0 <= j < files.len() - 1 ==> files2[j] == files[j],
        files2.last().generation == files.last().generation,
        files2.last().data@ == files.last().data@ + ext,
        0 <= i <= files.len(),
    ensures
        spec_total_len_from(files2, i) == spec_total_len_from(files, i) + if i < files.len() {
            ext.len() as int
        } else {
            0
        },
    decreases files.len() - i,
{
    if i < files.len() {
        lemma_total_len_extend_last(files, files2, ext, i + 1);
    }
}

/// Appending a file grows the total by that file's length.
proof fn lemma_total_len_push(files: Seq<LogFile>, f: LogFile, i: int)
    requires
        0 <= i <= files.len(),
    ensures
        spec_total_len_from(files.push(f), i) == spec_total_len_from(files, i) + f.data@.len(),
    decreases files.len() - i,
{
    if i == files.len() {
        assert(files.push(f)[i] == f);
        assert(spec_total_len_from(files.push(f), i + 1) == 0);
    } else {
        assert(files.push(f)[i] == files[i]);
        lemma_total_len_push(files, f, i + 1);
    }
}

/// A replay that succeeds on a file still succeeds when bytes are
/// appended after it, picking up from the old end.
proof fn lemma_replay_file_extend(
    st: StoreState,
    data: Seq<u8>,
    ext: Seq<u8>,
    generation: u64,
    pos: int,
)
    requires
        0 <= pos <= data.len(),
        spec_replay_file(st, data, generation, pos) is Ok,
    ensures
        spec_replay_file(st, data + ext, generation, pos) == spec_replay_file(
            spec_replay_file(st, data, generation, pos)->Ok_0,
            data + ext,
            generation,
            data.len() as int,
        ),
    decreases data.len() - pos,
{
    let full = data + ext;
    if pos == data.len() {
    } else {
        assert(full.subrange(pos, pos + 4) =~= data.subrange(pos, pos + 4));
        let n = spec_u32_from_le_bytes(data.subrange(pos, pos + 4)) as int;
        assert(pos + 4 + n <= data.len());
        assert(full.subrange(pos + 4, pos + 4 + n) =~= data.subrange(pos + 4, pos + 4 + n));
        let r = spec_parse_record(data.subrange(pos + 4, pos + 4 + n))->Some_0;
        lemma_replay_file_extend(
            spec_apply_record(st, r, generation, pos as u64, (4 + n) as u64),
            data,
            ext,
            generation,
            pos + 4 + n,
        );
    }
}

/// Appending one well-formed framed record to a file extends its
/// replay by exactly that record.
proof fn lemma_replay_file_append_frame(
    st: StoreState,
    data: Seq<u8>,
    frame: Seq<u8>,
    generation: u64,
    r: RecordView,
)
    requires
        spec_replay_file(st, data, generation, 0) is Ok,
        frame.len() >= 4,
        spec_u32_from_le_bytes(frame.subrange(0, 4)) == frame.len() - 4,
        spec_parse_record(frame.subrange(4, frame.len() as int)) == Some(r),
        r.crc_ok(),
    ensures
        spec_replay_file(st, data + frame, generation, 0) == Ok::<StoreState, LoadFailure>(
            spec_apply_record(
                spec_replay_file(st, data, generation, 0)->Ok_0,
                r,
                generation,
                data.len() as u64,
                frame.len() as u64,
            ),
        ),
{
    let full = data + frame;
    let st1 = spec_replay_file(st, data, generation, 0)->Ok_0;
    lemma_replay_file_extend(st, data, frame, generation, 0);
    let pos = data.len() as int;
    let n = frame.len() - 4;
    assert(full.subrange(pos, pos + 4) =~= frame.subrange(0, 4));
    assert(full.subrange(pos + 4, pos + 4 + n) =~= frame.subrange(4, frame.len() as int));
    assert(pos + 4 + n == full.len());
    assert((4 + n) as u64 == frame.len() as u64);
    let stm = spec_apply_record(st1, r, generation, pos as u64, (4 + n) as u64);
    assert(spec_replay_file(stm, full, generation, pos + 4 + n) == Ok::<StoreState, LoadFailure>(
        stm,
    ));
    assert(spec_replay_file(st1, full, generation, pos) == Ok::<StoreState, LoadFailure>(stm));
}

/// Extending the last file of a log set extends the whole replay by
/// the appended record.
proof fn lemma_replay_logs_extend_last(
    stin: StoreState,
    files: Seq<LogFile>,
    files2: Seq<LogFile>,
    frame: Seq<u8>,
    r: RecordView,
    i: int,
)
    requires
        files.len() >= 1,
        files2.len() == files.len(),
        forall|j: int| 0 <= j < files.len() - 1 ==> files2[j] == files[j],
        files2.last().generation == files.last().generation,
        files2.last().data@ == files.last().data@ + frame,
        0 <= i <= files.len() - 1,
        spec_replay_logs(stin, files, i) is Ok,
        frame.len() >= 4,
        spec_u32_from_le_bytes(frame.subrange(0, 4)) == frame.len() - 4,
        spec_parse_record(frame.subrange(4, frame.len() as int)) == Some(r),
        r.crc_ok(),
    ensures
        spec_replay_logs(stin, files2, i) == Ok::<StoreState, LoadFailure>(
            spec_apply_record(
                spec_replay_logs(stin, files, i)->Ok_0,
                r,
                files.last().generation,
                files.last().data@.len() as u64,
                frame.len() as u64,
            ),
        ),
    decreases files.len() - i,
{
    if i == files.len() - 1 {
        assert(files2[i] == files2.last());
        assert(files[i] == files.last());
        let stl = spec_replay_file(stin, files[i].data@, files[i].generation, 0)->Ok_0;
        lemma_replay_file_append_frame(
            stin,
            files[i].data@,
            frame,
            files[i].generation,
            r,
        );
        let stm = spec_apply_record(
            stl,
            r,
            files[i].generation,
            files[i].data@.len() as u64,
            frame.len() as u64,
        );
        assert(spec_replay_logs(stl, files, i + 1) == Ok::<StoreState, LoadFailure>(stl));
        assert(spec_replay_logs(stm, files2, i + 1) == Ok::<StoreState, LoadFailure>(stm));
        assert(spec_replay_logs(stin, files, i) == Ok::<StoreState, LoadFailure>(stl));
        assert(spec_replay_logs(stin, files2, i) == Ok::<StoreState, LoadFailure>(stm));
    } else {
        assert(files2[i] == files[i]);
        let st2 = spec_replay_file(stin, files[i].data@, files[i].generation, 0)->Ok_0;
        lemma_replay_logs_extend_last(st2, files, files2, frame, r, i + 1);
    }
}

/// Appending a whole file to a log set replays the old set, then the
/// new file.
proof fn lemma_replay_logs_push(st: StoreState, files: Seq<LogFile>, f: LogFile, i: int)
    requires
        0 <= i <= files.len(),
    ensures
        spec_replay_logs(st, files.push(f), i) == match spec_replay_logs(st, files, i) {
            Ok(st2) => spec_replay_file(st2, f.data@, f.generation, 0),
            Err(e) => Err(e),
        },
    decreases files.len() - i,
{
    if i == files.len() {
        assert(files.push(f)[i] == f);
        match spec_replay_file(st, f.data@, f.generation, 0) {
            Err(e) => {},
            Ok(st2) => {
                assert(spec_replay_logs(st2, files.push(f), i + 1) == Ok::<
                    StoreState,
                    LoadFailure,
                >(st2));
            },
        }
    } else {
        assert(files.push(f)[i] == files[i]);
        match spec_replay_file(st, files[i].data@, files[i].generation, 0) {
            Err(e) => {},
            Ok(st2) => {
                lemma_replay_logs_push(st2, files, f, i + 1);
            },
        }
    }
}

/// Replaying a file can add at most the bytes it consumed to the sum
/// of live and stale bytes, keeps the index finite, and never lowers
/// the highest sequence number.
proof fn lemma_replay_file_accounting(st: StoreState, data: Seq<u8>, generation: u64, pos: int)
    requires
        0 <= pos <= data.len(),
        st.index.dom().finite(),
        spec_replay_file(st, data, generation, pos) is Ok,
    ensures
        ({
            let st2 = spec_replay_file(st, data, generation, pos)->Ok_0;
            &&& st2.index.dom().finite()
            &&& spec_live_len(st2.index) + st2.uncompacted <= spec_live_len(st.index)
                + st.uncompacted + (data.len() - pos)
            &&& st2.highest_seq >= st.highest_seq
        }),
    decreases data.len() - pos,
{
    if pos == data.len() {
    } else {
        let n = spec_u32_from_le_bytes(data.subrange(pos, pos + 4)) as int;
        let r = spec_parse_record(data.subrange(pos + 4, pos + 4 + n))->Some_0;
        let stm = spec_apply_record(st, r, generation, pos as u64, (4 + n) as u64);
        match r.command {
            Some(CommandView::SetCmd { key, value }) => {
                lemma_live_len_insert(
                    st.index,
                    key,
                    CommandPos { generation, pos: pos as u64, len: (4 + n) as u64 },
                );
            },
            Some(CommandView::RemoveCmd { key }) => {
                lemma_live_len_remove(st.index, key);
            },
            None => {},
        }
        lemma_replay_file_accounting(stm, data, generation, pos + 4 + n);
    }
}

/// The accounting bound over a whole replay, from file `i` on.
proof fn lemma_replay_logs_accounting(st: StoreState, files: Seq<LogFile>, i: int)
    requires
        0 <= i <= files.len(),
        st.index.dom().finite(),
        spec_replay_logs(st, files, i) is Ok,
    ensures
        ({
            let st2 = spec_replay_logs(st, files, i)->Ok_0;
            &&& st2.index.dom().finite()
            &&& spec_live_len(st2.index) + st2.uncompacted <= spec_live_len(st.index)
                + st.uncompacted + spec_total_len_from(files, i)
            &&& st2.highest_seq >= st.highest_seq
        }),
    decreases files.len() - i,
{
    if i == files.len() {
    } else {
        lemma_replay_file_accounting(st, files[i].data@, files[i].generation, 0);
        let st2 = spec_replay_file(st, files[i].data@, files[i].generation, 0)->Ok_0;
        lemma_replay_logs_accounting(st2, files, i + 1);
    }
}

/// In any state a load yields, live and stale bytes together never
/// exceed the log set's size, and the index is finite.
pub proof fn lemma_load_accounting(files: Seq<LogFile>)
    requires
        spec_load(files) is Ok,
    ensures
        ({
            let st = spec_load(files)->Ok_0;
            &&& st.index.dom().finite()
            &&& spec_live_len(st.index) + st.uncompacted <= spec_total_len(files)
            &&& spec_live_len(st.index) >= 0
        }),
{
    lemma_replay_logs_accounting(empty_state(), files, 0);
    broadcast use vstd::set::fold::lemma_fold_empty;

    assert(empty_state().index.dom() =~= Set::<Seq<char>>::empty());
    assert(spec_live_len(empty_state().index) == 0);
    lemma_live_len_nonneg(spec_load(files)->Ok_0.index);
}

/// A record location is valid for a key when it points at a framed,
/// checksummed Set record of that key and value inside the named
/// file.
pub open spec fn frame_valid(data: Seq<u8>, cp: CommandPos, k: Seq<char>, v: Seq<char>, hi: u64) -> bool {
    &&& 4 <= cp.len
    &&& cp.pos + cp.len <= data.len()
    &&& spec_u32_from_le_bytes(data.subrange(cp.pos as int, cp.pos as int + 4)) == cp.len - 4
    &&& match spec_parse_record(data.subrange(cp.pos as int + 4, cp.pos + cp.len)) {
        Some(r) => {
            &&& r.crc_ok()
            &&& r.command == Some(CommandView::SetCmd { key: k, value: v })
            &&& r.sequence_number <= hi
        },
        None => false,
    }
}

/// One index entry is valid: its key is live, and some file of the
/// set holds its record.
pub open spec fn entry_valid(st: StoreState, files: Seq<LogFile>, k: Seq<char>) -> bool {
    &&& st.model.dom().contains(k)
    &&& exists|i: int|
        0 <= i < files.len() && (#[trigger] files[i]).generation == st.index[k].generation
            && frame_valid(files[i].data@, st.index[k], k, st.model[k], st.highest_seq)
}

/// A replay state is internally consistent with the files it came
/// from: index and model share a domain and every entry is valid.
pub open spec fn state_valid(st: StoreState, files: Seq<LogFile>) -> bool {
    &&& st.index.dom().finite()
    &&& st.index.dom() == st.model.dom()
    &&& forall|k: Seq<char>| #[trigger] st.index.dom().contains(k) ==> entry_valid(st, files, k)
}

/// All files small enough that byte offsets fit in 64 bits; true of
/// any file that exists in memory.
pub open spec fn files_bounded(files: Seq<LogFile>) -> bool {
    forall|i: int| 0 <= i < files.len() ==> (#[trigger] files[i]).data@.len() <= u64::MAX
}

/// Replaying a file of the set preserves state validity.
proof fn lemma_replay_file_valid(st: StoreState, files: Seq<LogFile>, fi: int, pos: int)
    requires
        files_bounded(files),
        0 <= fi < files.len(),
        0 <= pos <= files[fi].data@.len(),
        state_valid(st, files),
        spec_replay_file(st, files[fi].data@, files[fi].generation, pos) is Ok,
    ensures
        state_valid(
            spec_replay_file(st, files[fi].data@, files[fi].generation, pos)->Ok_0,
            files,
        ),
    decreases files[fi].data@.len() - pos,
{
    let data = files[fi].data@;
    let generation = files[fi].generation;
    if pos == data.len() {
    } else {
        let n = spec_u32_from_le_bytes(data.subrange(pos, pos + 4)) as int;
        let r = spec_parse_record(data.subrange(pos + 4, pos + 4 + n))->Some_0;
        let stm = spec_apply_record(st, r, generation, pos as u64, (4 + n) as u64);
        assert(state_valid(stm, files)) by {
            match r.command {
                Some(CommandView::SetCmd { key, value }) => {
                    let cp = CommandPos { generation, pos: pos as u64, len: (4 + n) as u64 };
                    assert(stm.index.dom() =~= stm.model.dom());
                    assert(frame_valid(data, cp, key, value, stm.highest_seq)) by {
                        assert(cp.pos as int == pos);
                        assert(cp.pos + cp.len == pos + 4 + n);
                    }
                    assert forall|k: Seq<char>| #[trigger] stm.index.dom().contains(k)
                        implies entry_valid(stm, files, k) by {
                        if k == key {
                            assert(files[fi].generation == cp.generation);
                            assert(entry_valid(stm, files, k));
                        } else {
                            assert(st.index.dom().contains(k));
                            let w = choose|i: int|
                                0 <= i < files.len() && (#[trigger] files[i]).generation
                                    == st.index[k].generation && frame_valid(
                                    files[i].data@,
                                    st.index[k],
                                    k,
                                    st.model[k],
                                    st.highest_seq,
                                );
                            assert(frame_valid(
                                files[w].data@,
                                stm.index[k],
                                k,
                                stm.model[k],
                                stm.highest_seq,
                            ));
                            assert(entry_valid(stm, files, k));
                        }
                    }
                },
                Some(CommandView::RemoveCmd { key }) => {
                    assert(stm.index.dom() =~= stm.model.dom());
                    assert forall|k: Seq<char>| #[trigger] stm.index.dom().contains(k)
                        implies entry_valid(stm, files, k) by {
                        assert(st.index.dom().contains(k));
                        assert(k != key);
                        let w = choose|i: int|
                            0 <= i < files.len() && (#[trigger] files[i]).generation
                                == st.index[k].generation && frame_valid(
                                files[i].data@,
                                st.index[k],
                                k,
                                st.model[k],
                                st.highest_seq,
                            );
                        assert(frame_valid(
                            files[w].data@,
                            stm.index[k],
                            k,
                            stm.model[k],
                            stm.highest_seq,
                        ));
                        assert(entry_valid(stm, files, k));
                    }
                },
                None => {},
            }
        }
        lemma_replay_file_valid(stm, files, fi, pos + 4 + n);
    }
}

/// Replaying files `i..` of the set preserves state validity.
proof fn lemma_replay_logs_valid(st: StoreState, files: Seq<LogFile>, i: int)
    requires
        files_bounded(files),
        0 <= i <= files.len(),
        state_valid(st, files),
        spec_replay_logs(st, files, i) is Ok,
    ensures
        state_valid(spec_replay_logs(st, files, i)->Ok_0, files),
    decreases files.len() - i,
{
    if i == files.len() {
    } else {
        lemma_replay_file_valid(st, files, i, 0);
        let st2 = spec_replay_file(st, files[i].data@, files[i].generation, 0)->Ok_0;
        lemma_replay_logs_valid(st2, files, i + 1);
    }
}

/// No file list occupies a negative number of bytes.
proof fn lemma_total_len_from_nonneg(files: Seq<LogFile>, i: int)
    ensures
        spec_total_len_from(files, i) >= 0,
    decreases files.len() - i,
{
    if 0 <= i < files.len() {
        lemma_total_len_from_nonneg(files, i + 1);
    }
}

/// No single file is larger than the whole set.
proof fn lemma_file_le_total(files: Seq<LogFile>, i: int, j: int)
    requires
        0 <= j <= i < files.len(),
    ensures
        files[i].data@.len() <= spec_total_len_from(files, j),
    decreases i - j,
{
    lemma_total_len_from_nonneg(files, j + 1);
    if j < i {
        lemma_file_le_total(files, i, j + 1);
    } else {
        lemma_total_len_from_nonneg(files, i + 1);
    }
}

/// Every state a load yields is valid for its files.
pub proof fn lemma_load_valid(files: Seq<LogFile>)
    requires
        files_bounded(files),
        spec_load(files) is Ok,
    ensures
        state_valid(spec_load(files)->Ok_0, files),
{
    assert(empty_state().index.dom() =~= empty_state().model.dom());
    lemma_replay_logs_valid(empty_state(), files, 0);
}

/// In an ascending list, the file found for a generation is the one
/// file that carries it.
proof fn lemma_file_data_at(files: Seq<LogFile>, w: int, generation: u64)
    requires
        0 <= w < files.len(),
        files[w].generation == generation,
        forall|i: int, j: int|
            0 <= i < j < files.len() ==> files[i].generation < files[j].generation,
    ensures
        spec_file_data(files, generation) == files[w].data@,
    decreases files.len(),
{
    if files.first().generation == generation {
        assert(w == 0) by {
            if w > 0 {
                assert(files[0].generation < files[w].generation);
            }
        }
    } else {
        assert(w > 0);
        let rest = files.drop_first();
        assert(forall|i: int, j: int|
            0 <= i < j < rest.len() ==> (#[trigger] rest[i]).generation < (
            #[trigger] rest[j]).generation);
        assert(rest[w - 1] == files[w]);
        lemma_file_data_at(rest, w - 1, generation);
    }
}

/// Finds the file that holds a live record and copies its framed
/// bytes out, exactly as they lie on disk.
#[verifier::rlimit(60)]
fn fetch_live_frame(
    logs: &Vec<LogFile>,
    cp: CommandPos,
    Ghost(k): Ghost<Seq<char>>,
    Ghost(v): Ghost<Seq<char>>,
    Ghost(hi): Ghost<u64>,
) -> (frame: Vec<u8>)
    requires
        forall|i: int, j: int|
            0 <= i < j < logs@.len() ==> logs@[i].generation < logs@[j].generation,
        exists|i: int|
            0 <= i < logs@.len() && (#[trigger] logs@[i]).generation == cp.generation
                && frame_valid(logs@[i].data@, cp, k, v, hi),
    ensures
        frame@.len() == cp.len,
        4 <= cp.len,
        frame@ == spec_frame_at(spec_file_data(logs@, cp.generation), cp),
        spec_u32_from_le_bytes(frame@.subrange(0, 4)) == cp.len - 4,
        match spec_parse_record(frame@.subrange(4, frame@.len() as int)) {
            Some(rec) => {
                &&& rec.crc_ok()
                &&& rec.command == Some(CommandView::SetCmd { key: k, value: v })
                &&& rec.sequence_number <= hi
            },
            None => false,
        },
{
    let ghost w = choose|i: int|
        0 <= i < logs@.len() && (#[trigger] logs@[i]).generation == cp.generation && frame_valid(
            logs@[i].data@,
            cp,
            k,
            v,
            hi,
        );
    let mut fi: usize = 0;
    while fi < logs.len() && logs[fi].generation != cp.generation
        invariant
            fi <= logs@.len(),
            forall|t: int| 0 <= t < fi ==> (#[trigger] logs@[t]).generation != cp.generation,
        decreases logs@.len() - fi,
    {
        fi = fi + 1;
    }
    proof {
        assert(fi < logs@.len());
        assert(fi as int == w);
    }
    let file = &logs[fi];
    // The file exists in memory, so record offsets within it fit a
    // usize.
    let file_len = file.data.len();
    let p = cp.pos as usize;
    let l = cp.len as usize;
    let frame = copy_range(&file.data, p, p + l);
    proof {
        assert(frame_valid(file.data@, cp, k, v, hi));
        lemma_file_data_at(logs@, fi as int, cp.generation);
        assert(frame@.subrange(0, 4) =~= file.data@.subrange(cp.pos as int, cp.pos as int + 4));
        assert(frame@.subrange(4, frame@.len() as int) =~= file.data@.subrange(
            cp.pos as int + 4,
            cp.pos + cp.len,
        ));
    }
    frame
}

/// Copies one live record, verbatim, from its source file onto the
/// end of the compaction file, and re-points its index entry there.
#[verifier::rlimit(100)]
#[verifier::spinoff_prover]
fn copy_live_record(
    logs: &Vec<LogFile>,
    index: &mut KeyIndex,
    comp_data: &mut Vec<u8>,
    key: String,
    cp: CommandPos,
    compaction_generation: u64,
    Ghost(st): Ghost<StoreState>,
    Ghost(pm): Ghost<Map<Seq<char>, CommandPos>>,
    Ghost(pmod): Ghost<Map<Seq<char>, Seq<char>>>,
    Ghost(hs): Ghost<u64>,
) -> (out: (Ghost<Map<Seq<char>, CommandPos>>, Ghost<Map<Seq<char>, Seq<char>>>, Ghost<u64>))
    requires
        forall|i: int, j: int|
            0 <= i < j < logs@.len() ==> logs@[i].generation < logs@[j].generation,
        st.index.dom().contains(key@),
        st.model.dom().contains(key@),
        entry_valid(st, logs@, key@),
        cp == st.index[key@],
        !pm.dom().contains(key@),
        pm.dom().finite(),
        index_view(*old(index)) == st.index.union_prefer_right(pm),
        old(comp_data)@.len() == spec_live_len(pm),
        spec_replay_file(empty_state(), old(comp_data)@, compaction_generation, 0) == Ok::<
            StoreState,
            LoadFailure,
        >(StoreState { index: pm, model: pmod, uncompacted: 0, highest_seq: hs }),
    ensures
        ({
            let pm2 = pm.insert(
                key@,
                CommandPos {
                    generation: compaction_generation,
                    pos: old(comp_data)@.len() as u64,
                    len: cp.len,
                },
            );
            let pmod2 = pmod.insert(key@, st.model[key@]);
            &&& out.0@ == pm2
            &&& out.1@ == pmod2
            &&& hs <= out.2@
            &&& out.2@ <= if hs >= st.highest_seq {
                hs
            } else {
                st.highest_seq
            }
            &&& index_view(*final(index)) == st.index.union_prefer_right(pm2)
            &&& final(comp_data)@.len() == spec_live_len(pm2)
            &&& final(comp_data)@.len() == old(comp_data)@.len() + cp.len
            &&& forall|t: int|
                0 <= t < old(comp_data)@.len() ==> final(comp_data)@[t] == old(comp_data)@[t]
            &&& spec_frame_at(
                final(comp_data)@,
                (CommandPos {
                    generation: compaction_generation,
                    pos: old(comp_data)@.len() as u64,
                    len: cp.len,
                }),
            ) == spec_frame_at(spec_file_data(logs@, cp.generation), cp)
            &&& spec_replay_file(empty_state(), final(comp_data)@, compaction_generation, 0)
                == Ok::<StoreState, LoadFailure>(
                StoreState { index: pm2, model: pmod2, uncompacted: 0, highest_seq: out.2@ },
            )
        }),
{
    let ghost kv0 = key@;
    let frame = fetch_live_frame(
        logs,
        cp,
        Ghost(kv0),
        Ghost(st.model[kv0]),
        Ghost(st.highest_seq),
    );
    let start = comp_data.len();
    let ghost cd0 = comp_data@;
    comp_data.extend_from_slice(frame.as_slice());
    let newcp = CommandPos {
        generation: compaction_generation,
        pos: start as u64,
        len: frame.len() as u64,
    };
    let ghost mut hs2 = hs;
    proof {
        let rec = spec_parse_record(frame@.subrange(4, frame@.len() as int))->Some_0;
        let before = StoreState { index: pm, model: pmod, uncompacted: 0, highest_seq: hs };
        lemma_replay_file_append_frame(empty_state(), cd0, frame@, compaction_generation, rec);
        assert(comp_data@ == cd0 + frame@);
        assert(spec_replay_file(empty_state(), cd0 + frame@, compaction_generation, 0) == Ok::<
            StoreState,
            LoadFailure,
        >(
            spec_apply_record(
                before,
                rec,
                compaction_generation,
                cd0.len() as u64,
                frame@.len() as u64,
            ),
        ));
        if rec.sequence_number > hs2 {
            hs2 = rec.sequence_number;
        }
        assert(spec_apply_record(
            before,
            rec,
            compaction_generation,
            cd0.len() as u64,
            frame@.len() as u64,
        ) == (StoreState {
            index: pm.insert(kv0, newcp),
            model: pmod.insert(kv0, st.model[kv0]),
            uncompacted: 0,
            highest_seq: hs2,
        }));
        lemma_live_len_insert(pm, key@, newcp);
    }
    let _prev = index_insert(index, key, newcp);
    proof {
        assert(spec_frame_at(comp_data@, newcp) =~= frame@);
        assert(index_view(*index) =~= st.index.union_prefer_right(pm.insert(kv0, newcp)));
        assert(frame@.len() == cp.len);
        assert(newcp.len == cp.len);
        assert(newcp.pos == cd0.len() as u64);
        let pm2 = pm.insert(kv0, newcp);
        assert(comp_data@.len() == spec_live_len(pm2));
        assert(hs <= hs2);
        assert(hs2 <= if hs >= st.highest_seq {
            hs
        } else {
            st.highest_seq
        });
        assert(spec_replay_file(empty_state(), comp_data@, compaction_generation, 0) == Ok::<
            StoreState,
            LoadFailure,
        >(
            StoreState {
                index: pm2,
                model: pmod.insert(kv0, st.model[kv0]),
                uncompacted: 0,
                highest_seq: hs2,
            },
        ));
    }
    (Ghost(pm.insert(kv0, newcp)), Ghost(pmod.insert(kv0, st.model[kv0])), Ghost(hs2))
}

/// One deferred change to the data directory.  The engine mutates its
/// in-memory log model and records here what the embedding process
/// must mirror to disk; `take_effects` hands the queue over.  Every
/// mutating operation ensures `effects_mirror_change`: applying the
/// queued effects to the old file set yields the new one, so a
/// process that performs them faithfully keeps the directory equal
/// to the store's log view.  The file input and output themselves
/// stay outside the verified library.
#[derive(Debug, Clone)]
pub enum Effect {
    /// Append `bytes` to the file of `generation`.
    Append { generation: u64, bytes: Vec<u8> },
    /// Create an empty file for `generation`.
    Create { generation: u64 },
    /// Delete the file of `generation`.
    Delete { generation: u64 },
}

/// The view of a log set as plain values: each file's generation and
/// bytes, in order.
pub open spec fn spec_file_views(files: Seq<LogFile>) -> Seq<(u64, Seq<u8>)> {
    files.map_values(|f: LogFile| (f.generation, f.data@))
}

/// Whether a file of this generation exists.
pub open spec fn spec_has_file(files: Seq<(u64, Seq<u8>)>, generation: u64) -> bool {
    exists|i: int| 0 <= i < files.len() && (#[trigger] files[i]).0 == generation
}

/// Appends `bytes` to the file of `generation`, creating the file at
/// the end of the list when it is absent.
pub open spec fn spec_append_file(
    files: Seq<(u64, Seq<u8>)>,
    generation: u64,
    bytes: Seq<u8>,
) -> Seq<(u64, Seq<u8>)> {
    if spec_has_file(files, generation) {
        files.map_values(
            |p: (u64, Seq<u8>)|
                if p.0 == generation {
                    (p.0, p.1 + bytes)
                } else {
                    p
                },
        )
    } else {
        files.push((generation, bytes))
    }
}

/// Removes every file of `generation`.
pub open spec fn spec_remove_file(files: Seq<(u64, Seq<u8>)>, generation: u64) -> Seq<
    (u64, Seq<u8>),
>
    decreases files.len(),
{
    if files.len() == 0 {
        Seq::empty()
    } else {
        let rest = spec_remove_file(files.drop_first(), generation);
        if files.first().0 == generation {
            rest
        } else {
            seq![files.first()] + rest
        }
    }
}

/// The change one queued effect makes to a directory's files.
pub open spec fn spec_apply_effect(files: Seq<(u64, Seq<u8>)>, e: Effect) -> Seq<(u64, Seq<u8>)> {
    match e {
        Effect::Create { generation } => if spec_has_file(files, generation) {
            files
        } else {
            files.push((generation, Seq::empty()))
        },
        Effect::Append { generation, bytes } => spec_append_file(files, generation, bytes@),
        Effect::Delete { generation } => spec_remove_file(files, generation),
    }
}

/// The change a queue of effects makes, applied in order from entry
/// `i` to the end.
pub open spec fn spec_apply_effects(
    files: Seq<(u64, Seq<u8>)>,
    effects: Seq<Effect>,
    i: int,
) -> Seq<(u64, Seq<u8>)>
    decreases effects.len() - i,
{
    if i < 0 || i >= effects.len() {
        files
    } else {
        spec_apply_effects(spec_apply_effect(files, effects[i]), effects, i + 1)
    }
}

/// The framed form of a record as it lies in a log file: a 4-byte
/// little-endian length, then the record's encoding.
pub open spec fn spec_frame(r: RecordView) -> Seq<u8> {
    spec_u32_to_le_bytes(spec_encode_record(r).len() as u32) + spec_encode_record(r)
}

/// The bytes of one framed record at a location.
pub open spec fn spec_frame_at(data: Seq<u8>, cp: CommandPos) -> Seq<u8> {
    data.subrange(cp.pos as int, cp.pos + cp.len)
}

/// The bytes of the file of `generation`, empty when no such file
/// exists.
pub open spec fn spec_file_data(files: Seq<LogFile>, generation: u64) -> Seq<u8>
    decreases files.len(),
{
    if files.len() == 0 {
        Seq::empty()
    } else if files.first().generation == generation {
        files.first().data@
    } else {
        spec_file_data(files.drop_first(), generation)
    }
}

/// The effects queued since `pre` are a faithful mirror of the
/// change: the old queue is untouched, and applying exactly the new
/// entries, in order, to `pre`'s files yields `post`'s files.
pub open spec fn effects_mirror_change(pre: KvStore, post: KvStore) -> bool {
    &&& pre.effects_view().len() <= post.effects_view().len()
    &&& forall|j: int|
        0 <= j < pre.effects_view().len() ==> post.effects_view()[j] == pre.effects_view()[j]
    &&& spec_file_views(post.log_view()) == spec_apply_effects(
        spec_file_views(pre.log_view()),
        post.effects_view(),
        pre.effects_view().len() as int,
    )
}

/// Exactly one framed record was appended to the current generation:
/// the last file grew by the frame of `r`, a record carrying the next
/// sequence number and a matching checksum; every other file is
/// untouched; and the same bytes were queued as one Append effect.
pub open spec fn appended_one_record(pre: KvStore, post: KvStore, r: RecordView) -> bool {
    &&& r.version == CURRENT_SCHEMA_VERSION
    &&& r.sequence_number == pre.sequence() + 1
    &&& r.crc_ok()
    &&& post.log_view().len() == pre.log_view().len()
    &&& forall|j: int| 0 <= j < pre.log_view().len() - 1 ==> post.log_view()[j] == pre.log_view()[j]
    &&& post.log_view().last().generation == pre.generation()
    &&& post.log_view().last().data@ == pre.log_view().last().data@ + spec_frame(r)
    &&& post.effects_view().len() == pre.effects_view().len() + 1
    &&& (post.effects_view().last() matches Effect::Append { generation, bytes } && generation
        == pre.generation() && bytes@ == spec_frame(r))
    &&& post.generation() == pre.generation()
    &&& post.safe_point() == pre.safe_point()
}

/// The layout after a compaction that started from `pre`: one file of
/// the compaction generation holding the live records, one empty file
/// of the fresh append generation beyond it, nothing else; no stale
/// bytes, so the disk holds exactly the live bytes; and the
/// compaction file replays, without any superseded or Remove record,
/// to exactly the post-state's index and contents.
pub open spec fn compacted_layout(pre: KvStore, post: KvStore) -> bool {
    &&& post.log_view().len() == 2
    &&& post.log_view()[0].generation == pre.generation() + 1
    &&& post.log_view()[1].generation == pre.generation() + 2
    &&& post.log_view()[1].data@.len() == 0
    &&& post.generation() == pre.generation() + 2
    &&& post.safe_point() == pre.generation() + 1
    &&& post.stale_bytes() == 0
    &&& spec_total_len(post.log_view()) == spec_live_len(post.index_of())
    &&& (spec_replay_file(
        empty_state(),
        post.log_view()[0].data@,
        post.log_view()[0].generation,
        0,
    ) matches Ok(st) && st.index == post.index_of() && st.model == post.model()
        && st.uncompacted == 0)
}

/// Running a queue to its end equals running a shorter queue it
/// extends, then the remainder.
proof fn lemma_apply_effects_extend_queue(
    fv: Seq<(u64, Seq<u8>)>,
    e1: Seq<Effect>,
    e2: Seq<Effect>,
    i: int,
)
    requires
        0 <= i <= e1.len() <= e2.len(),
        forall|j: int| 0 <= j < e1.len() ==> e2[j] == e1[j],
    ensures
        spec_apply_effects(fv, e2, i) == spec_apply_effects(
            spec_apply_effects(fv, e1, i),
            e2,
            e1.len() as int,
        ),
    decreases e1.len() - i,
{
    if i < e1.len() {
        lemma_apply_effects_extend_queue(spec_apply_effect(fv, e1[i]), e1, e2, i + 1);
    }
}

/// Mirroring composes: if the queue mirrors `a` to `b` and `b` to
/// `c`, it mirrors `a` to `c`.
proof fn lemma_mirror_transitive(a: KvStore, b: KvStore, c: KvStore)
    requires
        effects_mirror_change(a, b),
        effects_mirror_change(b, c),
    ensures
        effects_mirror_change(a, c),
{
    lemma_apply_effects_extend_queue(
        spec_file_views(a.log_view()),
        b.effects_view(),
        c.effects_view(),
        a.effects_view().len() as int,
    );
}

/// Applying an Append effect for the last file's generation extends
/// exactly that file.
proof fn lemma_apply_append_last(fv: Seq<(u64, Seq<u8>)>, e: Effect)
    requires
        fv.len() >= 1,
        forall|i: int, j: int| 0 <= i < j < fv.len() ==> (#[trigger] fv[i]).0 != (#[trigger] fv[j]).0,
        e matches Effect::Append { generation, bytes } && generation == fv.last().0,
    ensures
        spec_apply_effect(fv, e) == fv.update(
            fv.len() - 1,
            (fv.last().0, fv.last().1 + e->Append_bytes@),
        ),
{
    let generation = e->Append_generation;
    let bytes = e->Append_bytes@;
    assert(spec_has_file(fv, generation)) by {
        assert(fv[fv.len() - 1].0 == generation);
    }
    assert(spec_append_file(fv, generation, bytes) =~= fv.update(
        fv.len() - 1,
        (fv.last().0, fv.last().1 + bytes),
    ));
}

/// Removal distributes over concatenation.
proof fn lemma_remove_file_concat(a: Seq<(u64, Seq<u8>)>, b: Seq<(u64, Seq<u8>)>, generation: u64)
    ensures
        spec_remove_file(a + b, generation) == spec_remove_file(a, generation) + spec_remove_file(
            b,
            generation,
        ),
    decreases a.len(),
{
    if a.len() == 0 {
        assert(a + b =~= b);
        assert(spec_remove_file(a, generation) + spec_remove_file(b, generation)
            =~= spec_remove_file(b, generation));
    } else {
        assert((a + b).drop_first() =~= a.drop_first() + b);
        lemma_remove_file_concat(a.drop_first(), b, generation);
        if a.first().0 != generation {
            assert(seq![a.first()] + (spec_remove_file(a.drop_first(), generation)
                + spec_remove_file(b, generation)) =~= (seq![a.first()] + spec_remove_file(
                a.drop_first(),
                generation,
            )) + spec_remove_file(b, generation));
        }
    }
}

/// Removing a generation no file has changes nothing.
proof fn lemma_remove_file_no_match(fv: Seq<(u64, Seq<u8>)>, generation: u64)
    requires
        forall|i: int| 0 <= i < fv.len() ==> (#[trigger] fv[i]).0 != generation,
    ensures
        spec_remove_file(fv, generation) == fv,
    decreases fv.len(),
{
    if fv.len() > 0 {
        lemma_remove_file_no_match(fv.drop_first(), generation);
        assert(seq![fv.first()] + fv.drop_first() =~= fv);
    }
}

/// Applying one Delete effect per doomed file, in order, leaves
/// exactly the files to keep.
proof fn lemma_apply_deletes(
    doomed: Seq<(u64, Seq<u8>)>,
    keep: Seq<(u64, Seq<u8>)>,
    effects: Seq<Effect>,
    i: int,
)
    requires
        0 <= i,
        effects.len() - i == doomed.len(),
        forall|j: int|
            0 <= j < doomed.len() ==> ((#[trigger] effects[i + j]) matches Effect::Delete {
                generation,
            } && generation == doomed[j].0),
        forall|j1: int, j2: int|
            0 <= j1 < j2 < doomed.len() ==> (#[trigger] doomed[j1]).0 != (#[trigger] doomed[j2]).0,
        forall|j: int, t: int|
            0 <= j < doomed.len() && 0 <= t < keep.len() ==> (#[trigger] doomed[j]).0 != (
            #[trigger] keep[t]).0,
    ensures
        spec_apply_effects(doomed + keep, effects, i) == keep,
    decreases doomed.len(),
{
    if doomed.len() == 0 {
        assert(doomed + keep =~= keep);
    } else {
        let generation = doomed[0].0;
        assert((effects[i + 0] matches Effect::Delete { generation: g } && g == generation));
        lemma_remove_file_concat(doomed, keep, generation);
        lemma_remove_file_no_match(keep, generation);
        assert(spec_remove_file(doomed, generation) =~= spec_remove_file(
            doomed.drop_first(),
            generation,
        ));
        lemma_remove_file_no_match(doomed.drop_first(), generation);
        assert(spec_apply_effect(doomed + keep, effects[i]) == doomed.drop_first() + keep);
        assert forall|j: int| 0 <= j < doomed.drop_first().len() implies ((#[trigger] effects[(i
            + 1) + j]) matches Effect::Delete { generation: g } && g == doomed.drop_first()[j].0) by {
            assert((effects[i + (j + 1)] matches Effect::Delete { generation: g2 } && g2 == doomed[j
                + 1].0));
        }
        lemma_apply_deletes(doomed.drop_first(), keep, effects, i + 1);
    }
}

/// The effect queue a compaction pushes — create the compaction
/// file, fill it, create the fresh append file, delete every old
/// generation — turns the old file set into exactly the two new
/// files.
#[verifier::rlimit(60)]
proof fn lemma_compaction_effects(
    pre_fv: Seq<(u64, Seq<u8>)>,
    effects: Seq<Effect>,
    i0: int,
    compaction_generation: u64,
    new_generation: u64,
    comp_seq: Seq<u8>,
)
    requires
        0 <= i0,
        effects.len() == i0 + 3 + pre_fv.len(),
        forall|i: int, j: int|
            0 <= i < j < pre_fv.len() ==> (#[trigger] pre_fv[i]).0 < (#[trigger] pre_fv[j]).0,
        forall|i: int| 0 <= i < pre_fv.len() ==> (#[trigger] pre_fv[i]).0 < compaction_generation,
        compaction_generation < new_generation,
        (effects[i0] matches Effect::Create { generation } && generation
            == compaction_generation),
        (effects[i0 + 1] matches Effect::Append { generation, bytes } && generation
            == compaction_generation && bytes@ == comp_seq),
        (effects[i0 + 2] matches Effect::Create { generation } && generation == new_generation),
        forall|j: int|
            0 <= j < pre_fv.len() ==> ((#[trigger] effects[i0 + 3 + j]) matches Effect::Delete {
                generation,
            } && generation == pre_fv[j].0),
    ensures
        spec_apply_effects(pre_fv, effects, i0) == seq![
            (compaction_generation, comp_seq),
            (new_generation, Seq::<u8>::empty()),
        ],
{
    let fv1 = spec_apply_effect(pre_fv, effects[i0]);
    assert(!spec_has_file(pre_fv, compaction_generation));
    assert(fv1 == pre_fv.push((compaction_generation, Seq::<u8>::empty())));
    let fv2 = spec_apply_effect(fv1, effects[i0 + 1]);
    assert(fv2 == fv1.update(
        fv1.len() - 1,
        (fv1.last().0, fv1.last().1 + effects[i0 + 1]->Append_bytes@),
    )) by {
        assert(fv1.last().0 == compaction_generation);
        assert(forall|i: int, j: int|
            0 <= i < j < fv1.len() ==> (#[trigger] fv1[i]).0 != (#[trigger] fv1[j]).0);
        lemma_apply_append_last(fv1, effects[i0 + 1]);
    }
    assert(fv2 =~= pre_fv.push((compaction_generation, comp_seq))) by {
        assert(Seq::<u8>::empty() + comp_seq =~= comp_seq);
    }
    let fv3 = spec_apply_effect(fv2, effects[i0 + 2]);
    assert(!spec_has_file(fv2, new_generation));
    assert(fv3 == fv2.push((new_generation, Seq::<u8>::empty())));
    let keep = seq![(compaction_generation, comp_seq), (new_generation, Seq::<u8>::empty())];
    assert(fv3 =~= pre_fv + keep);
    assert forall|j: int, t: int| 0 <= j < pre_fv.len() && 0 <= t < keep.len() implies (
    #[trigger] pre_fv[j]).0 != (#[trigger] keep[t]).0 by {
        assert(pre_fv[j].0 < compaction_generation);
    }
    lemma_apply_deletes(pre_fv, keep, effects, i0 + 3);
    assert(spec_apply_effects(pre_fv, effects, i0) == spec_apply_effects(fv1, effects, i0 + 1));
    assert(spec_apply_effects(fv1, effects, i0 + 1) == spec_apply_effects(fv2, effects, i0 + 2));
    assert(spec_apply_effects(fv2, effects, i0 + 2) == spec_apply_effects(fv3, effects, i0 + 3));
}

/// The log-structured storage engine: per-generation append-only
/// logs, an in-memory index from key to record location, stale-byte
/// accounting and threshold-driven compaction.
pub struct KvStore {
    /// The log files, one per generation, oldest first; the last one
    /// is the current append target.
    logs: Vec<LogFile>,
    /// Key to the location of its most recent Set record.
    index: KeyIndex,
    /// The generation new records are appended to.
    current_generation: u64,
    /// The largest sequence number recovered or written.
    current_sequence: u64,
    /// Bytes in the logs that no longer contribute to live state.
    uncompacted: u64,
    /// The oldest generation readers may touch; never decreases.
    safe_point: u64,
    /// Directory changes not yet mirrored to disk.
    effects: Vec<Effect>,
    /// The live contents, kept in lockstep with the logs.
    model: Ghost<Map<Seq<char>, Seq<char>>>,
}

impl KvStore {
    /// The live contents: each key bound to its current value.
    pub closed spec fn model(self) -> Map<Seq<char>, Seq<char>> {
        self.model@
    }

    /// The log files as the store believes them to be on disk.
    pub closed spec fn log_view(self) -> Seq<LogFile> {
        self.logs@
    }

    /// The generation currently appended to.
    pub closed spec fn generation(self) -> u64 {
        self.current_generation
    }

    /// The largest sequence number recovered or written.
    pub closed spec fn sequence(self) -> u64 {
        self.current_sequence
    }

    /// The stale-byte count.
    pub closed spec fn stale_bytes(self) -> u64 {
        self.uncompacted
    }

    /// The oldest generation readers may touch.
    pub closed spec fn safe_point(self) -> u64 {
        self.safe_point
    }

    /// The in-memory index: each live key bound to the location of
    /// its most recent Set record.
    pub closed spec fn index_of(self) -> Map<Seq<char>, CommandPos> {
        index_view(self.index)
    }

    /// Well-formedness: generations strictly ascend and end at the
    /// current one, and the in-memory state is exactly what the log
    /// files replay to.
    pub closed spec fn wf(self) -> bool {
        &&& self.logs@.len() >= 1
        &&& forall|i: int, j: int|
            0 <= i < j < self.logs@.len() ==> self.logs@[i].generation
                < self.logs@[j].generation
        &&& self.logs@.last().generation == self.current_generation
        &&& self.current_generation >= 1
        &&& self.safe_point <= self.current_generation
        &&& spec_total_len(self.logs@) <= u64::MAX
        &&& match spec_load(self.logs@) {
            Ok(st) => {
                &&& st.index == index_view(self.index)
                &&& st.model == self.model@
                &&& st.uncompacted == self.uncompacted
                &&& st.highest_seq <= self.current_sequence
            },
            Err(_) => false,
        }
    }

    /// The current generation number.
    pub fn current_generation(&self) -> (r: u64)
        ensures
            r == self.generation(),
    {
        self.current_generation
    }

    /// The current sequence counter.
    pub fn current_sequence(&self) -> (r: u64)
        ensures
            r == self.sequence(),
    {
        self.current_sequence
    }

    /// The stale-byte counter.
    pub fn uncompacted_bytes(&self) -> (r: u64)
        ensures
            r == self.stale_bytes(),
    {
        self.uncompacted
    }

    /// The oldest generation readers may touch.
    pub fn reader_safe_point(&self) -> (r: u64)
        ensures
            r == self.safe_point(),
    {
        self.safe_point
    }

    /// The store's log files, as they stand on disk once all effects
    /// are applied.
    pub fn log_files(&self) -> (r: &Vec<LogFile>)
        ensures
            r@ == self.log_view(),
    {
        &self.logs
    }

    /// The total number of bytes the log set occupies.
    pub fn total_log_bytes(&self) -> (r: u64)
        requires
            self.wf(),
        ensures
            r == spec_total_len(self.log_view()),
    {
        let mut total: u64 = 0;
        let mut i: usize = 0;
        while i < self.logs.len()
            invariant
                self.wf(),
                i <= self.logs@.len(),
                total + spec_total_len_from(self.logs@, i as int) == spec_total_len(self.logs@),
                total <= u64::MAX,
            decreases self.logs@.len() - i,
        {
            proof {
                lemma_total_len_from_nonneg(self.logs@, i as int + 1);
            }
            total = total + (self.logs[i].data.len() as u64);
            i = i + 1;
        }
        total
    }

    /// What well-formedness gives a caller: the logs replay
    /// successfully to exactly the store's live model, index and
    /// stale count; no recorded sequence number exceeds the counter;
    /// and the generations ascend strictly, ending at the current
    /// one.
    pub proof fn lemma_wf_facts(self)
        requires
            self.wf(),
        ensures
            spec_load(self.log_view()) is Ok,
            spec_load(self.log_view())->Ok_0.model == self.model(),
            spec_load(self.log_view())->Ok_0.index == self.index_of(),
            spec_load(self.log_view())->Ok_0.uncompacted == self.stale_bytes(),
            spec_load(self.log_view())->Ok_0.highest_seq <= self.sequence(),
            self.log_view().len() >= 1,
            forall|i: int, j: int|
                0 <= i < j < self.log_view().len() ==> self.log_view()[i].generation
                    < self.log_view()[j].generation,
            self.log_view().last().generation == self.generation(),
            1 <= self.generation(),
            self.safe_point() <= self.generation(),
            spec_total_len(self.log_view()) <= u64::MAX,
    {
    }

    /// Every file of a well-formed store fits 64-bit offsets.
    proof fn lemma_wf_bounded(self)
        requires
            self.wf(),
        ensures
            files_bounded(self.log_view()),
    {
        assert forall|i: int| 0 <= i < self.logs@.len() implies (#[trigger] self.logs@[i]).data@.len()
            <= u64::MAX by {
            lemma_file_le_total(self.logs@, i, 0);
        }
    }

    /// Gets the value of a key.  Returns `None` when the key has
    /// never been set or was most recently removed; otherwise reads
    /// the key's record back from the log, decodes it and checks its
    /// checksum, which a well-formed store always passes.
    #[verifier::rlimit(60)]
    pub fn get(&self, key: String) -> (r: Result<Option<String>, KvsError>)
        requires
            self.wf(),
        ensures
            match r {
                Ok(Some(v)) => self.model().dom().contains(key@) && v@ == self.model()[key@],
                Ok(None) => !self.model().dom().contains(key@),
                Err(_) => false,
            },
    {
        proof {
            self.lemma_wf_bounded();
            lemma_load_valid(self.logs@);
        }
        let ghost st = spec_load(self.logs@)->Ok_0;
        let entry = index_get(&self.index, &key);
        match entry {
            None => Ok(None),
            Some(cp) => {
                let ghost w = choose|i: int|
                    0 <= i < self.logs@.len() && (#[trigger] self.logs@[i]).generation
                        == st.index[key@].generation && frame_valid(
                        self.logs@[i].data@,
                        st.index[key@],
                        key@,
                        st.model[key@],
                        st.highest_seq,
                    );
                let mut fi: usize = 0;
                while fi < self.logs.len() && self.logs[fi].generation != cp.generation
                    invariant
                        self.wf(),
                        fi <= self.logs@.len(),
                        cp == st.index[key@],
                        st == spec_load(self.logs@)->Ok_0,
                        forall|j: int|
                            0 <= j < fi ==> (#[trigger] self.logs@[j]).generation
                                != cp.generation,
                    decreases self.logs@.len() - fi,
                {
                    fi = fi + 1;
                }
                if fi == self.logs.len() {
                    proof {
                        assert(false);
                    }
                    return Err(KvsError::UnexpectedCommandType);
                }
                proof {
                    assert(fi as int == w);
                }
                let file = &self.logs[fi];
                // The file exists in memory, so record offsets within it
                // fit a usize.
                let data_len = file.data.len();
                proof {
                    assert(file.data@.len() <= usize::MAX);
                }
                let p = cp.pos as usize;
                let l = cp.len as usize;
                let prefix = crate::bytesutil::copy_range(&file.data, p, p + 4);
                proof {
                    assert(prefix@ =~= file.data@.subrange(cp.pos as int, cp.pos as int + 4));
                }
                let n32 = u32_from_le_bytes(prefix.as_slice());
                let n = n32 as usize;
                proof {
                    assert(n == l - 4);
                }
                let body = crate::bytesutil::copy_range(&file.data, p + 4, p + 4 + n);
                proof {
                    assert(body@ =~= file.data@.subrange(cp.pos as int + 4, cp.pos + cp.len));
                }
                let cmd = match KvsCommand::decode(&body) {
                    Ok(c) => c,
                    Err(e) => {
                        proof {
                            assert(false);
                        }
                        return Err(e);
                    },
                };
                if !cmd.verify_checksum() {
                    proof {
                        assert(false);
                    }
                    return Err(KvsError::CorruptedData);
                }
                match cmd.command {
                    Some(Command::SetCmd { key: record_key, value }) => Ok(Some(value)),
                    Some(Command::RemoveCmd { .. }) => {
                        proof {
                            assert(false);
                        }
                        Err(KvsError::UnexpectedCommandType)
                    },
                    None => {
                        proof {
                            assert(false);
                        }
                        Ok(None)
                    },
                }
            },
        }
    }

    /// A Set of this key and value will be accepted.
    pub open spec fn accepts_set(self, key: Seq<char>, value: Seq<char>) -> bool {
        &&& vstd::utf8::encode_utf8(key).len() + vstd::utf8::encode_utf8(value).len()
            <= PAYLOAD_LIMIT
        &&& self.sequence() < u64::MAX
        &&& spec_total_len(self.log_view()) <= TOTAL_BYTES_LIMIT
    }

    /// A Remove of this key will be accepted, provided it is bound.
    pub open spec fn accepts_remove(self, key: Seq<char>) -> bool {
        &&& vstd::utf8::encode_utf8(key).len() <= PAYLOAD_LIMIT
        &&& self.sequence() < u64::MAX
        &&& spec_total_len(self.log_view()) <= TOTAL_BYTES_LIMIT
    }

    /// Sets the value of a key, overwriting any previous value: a Set
    /// record is appended to the current generation and the index is
    /// updated; the superseded record, if any, becomes stale.
    /// Exceeding the stale-byte threshold triggers compaction.
    pub fn set(&mut self, key: String, value: String) -> (r: Result<(), KvsError>)
        requires
            old(self).wf(),
        ensures
            final(self).wf(),
            r is Ok <==> old(self).accepts_set(key@, value@),
            match r {
                Ok(_) => {
                    &&& final(self).model() == old(self).model().insert(key@, value@)
                    &&& final(self).sequence() == old(self).sequence() + 1
                    &&& final(self).generation() >= old(self).generation()
                    &&& final(self).safe_point() >= old(self).safe_point()
                    &&& (old(self).generation() <= u64::MAX - 2 ==> final(self).stale_bytes()
                        <= COMPACTION_THRESHOLD)
                    &&& effects_mirror_change(*old(self), *final(self))
                    &&& ({
                        let staled = if old(self).index_of().dom().contains(key@) {
                            sat_add(old(self).stale_bytes(), old(self).index_of()[key@].len)
                        } else {
                            old(self).stale_bytes()
                        };
                        if staled > COMPACTION_THRESHOLD && old(self).generation() <= u64::MAX
                            - 2 {
                            compacted_layout(*old(self), *final(self))
                        } else {
                            &&& final(self).stale_bytes() == staled
                            &&& exists|r: RecordView|
                                #[trigger] appended_one_record(*old(self), *final(self), r)
                                    && r.command == Some(
                                    CommandView::SetCmd { key: key@, value: value@ },
                                ) && final(self).index_of() == old(self).index_of().insert(
                                    key@,
                                    (CommandPos {
                                        generation: old(self).generation(),
                                        pos: old(self).log_view().last().data@.len() as u64,
                                        len: spec_frame(r).len() as u64,
                                    }),
                                )
                        }
                    })
                },
                Err(e) => {
                    &&& *final(self) == *old(self)
                    &&& if vstd::utf8::encode_utf8(key@).len() + vstd::utf8::encode_utf8(
                        value@,
                    ).len() > PAYLOAD_LIMIT {
                        e is Serialization
                    } else {
                        e is StringError
                    }
                },
            },
    {
        let key_len = key.as_str().as_bytes().len() as u64;
        let value_len = value.as_str().as_bytes().len() as u64;
        if key_len > PAYLOAD_LIMIT || value_len > PAYLOAD_LIMIT - key_len {
            return Err(
                KvsError::Serialization(String::from_str("key and value exceed the record size")),
            );
        }
        if self.current_sequence == u64::MAX {
            return Err(KvsError::StringError(String::from_str("sequence numbers exhausted")));
        }
        let total = self.total_log_bytes();
        if total > TOTAL_BYTES_LIMIT {
            return Err(KvsError::StringError(String::from_str("log set is full")));
        }
        let sequence = self.current_sequence + 1;
        let ghost pre = *self;
        self.current_sequence = sequence;
        let ghost pre_seq = *self;
        let index_key = key.clone();
        let ghost kv = key@;
        let ghost vv = value@;
        let cmd = KvsCommand::set(key, value, sequence);
        self.append_record(cmd, index_key, Ghost(kv), Ghost(vv));
        let ghost mid = *self;
        proof {
            assert(effects_mirror_change(pre, mid)) by {
                assert(pre.effects_view() == pre_seq.effects_view());
                assert(pre.log_view() == pre_seq.log_view());
            }
            assert(appended_one_record(pre, mid, cmd@));
        }
        if self.uncompacted > COMPACTION_THRESHOLD && self.current_generation <= u64::MAX - 2 {
            self.compact_internal();
            proof {
                lemma_mirror_transitive(pre, mid, *self);
            }
        }
        Ok(())
    }

    /// Removes a key.  An absent key is refused with `KeyNotFound`
    /// and nothing is written; otherwise a Remove record is appended,
    /// the index entry is dropped, and both the old Set and the new
    /// Remove become stale bytes.
    pub fn remove(&mut self, key: String) -> (r: Result<(), KvsError>)
        requires
            old(self).wf(),
        ensures
            final(self).wf(),
            r is Ok <==> (old(self).model().dom().contains(key@) && old(self).accepts_remove(
                key@,
            )),
            match r {
                Ok(_) => {
                    &&& final(self).model() == old(self).model().remove(key@)
                    &&& final(self).sequence() == old(self).sequence() + 1
                    &&& final(self).generation() >= old(self).generation()
                    &&& final(self).safe_point() >= old(self).safe_point()
                    &&& (old(self).generation() <= u64::MAX - 2 ==> final(self).stale_bytes()
                        <= COMPACTION_THRESHOLD)
                    &&& effects_mirror_change(*old(self), *final(self))
                    &&& exists|r: RecordView|
                        #![trigger spec_frame(r)]
                        {
                            &&& r.version == CURRENT_SCHEMA_VERSION
                            &&& r.sequence_number == old(self).sequence() + 1
                            &&& r.crc_ok()
                            &&& r.command == Some(CommandView::RemoveCmd { key: key@ })
                            &&& ({
                                let staled = sat_add(
                                    sat_add(
                                        old(self).stale_bytes(),
                                        old(self).index_of()[key@].len,
                                    ),
                                    spec_frame(r).len() as u64,
                                );
                                if staled > COMPACTION_THRESHOLD && old(self).generation()
                                    <= u64::MAX - 2 {
                                    compacted_layout(*old(self), *final(self))
                                } else {
                                    &&& final(self).stale_bytes() == staled
                                    &&& appended_one_record(*old(self), *final(self), r)
                                    &&& final(self).index_of() == old(self).index_of().remove(
                                        key@,
                                    )
                                }
                            })
                        }
                },
                Err(e) => {
                    &&& *final(self) == *old(self)
                    &&& if !old(self).model().dom().contains(key@) {
                        e is KeyNotFound
                    } else if vstd::utf8::encode_utf8(key@).len() > PAYLOAD_LIMIT {
                        e is Serialization
                    } else {
                        e is StringError
                    }
                },
            },
    {
        proof {
            self.lemma_wf_bounded();
            lemma_load_valid(self.logs@);
        }
        if !index_contains_key(&self.index, &key) {
            return Err(KvsError::KeyNotFound);
        }
        let key_len = key.as_str().as_bytes().len() as u64;
        if key_len > PAYLOAD_LIMIT {
            return Err(KvsError::Serialization(String::from_str("key exceeds the record size")));
        }
        if self.current_sequence == u64::MAX {
            return Err(KvsError::StringError(String::from_str("sequence numbers exhausted")));
        }
        let total = self.total_log_bytes();
        if total > TOTAL_BYTES_LIMIT {
            return Err(KvsError::StringError(String::from_str("log set is full")));
        }
        let sequence = self.current_sequence + 1;
        let ghost pre = *self;
        self.current_sequence = sequence;
        let ghost pre_seq = *self;
        let index_key = key.clone();
        let ghost kv = key@;
        let cmd = KvsCommand::remove(key, sequence);
        self.remove_record(cmd, &index_key, Ghost(kv));
        let ghost mid = *self;
        proof {
            assert(effects_mirror_change(pre, mid)) by {
                assert(pre.effects_view() == pre_seq.effects_view());
                assert(pre.log_view() == pre_seq.log_view());
            }
            assert(appended_one_record(pre, mid, cmd@));
        }
        if self.uncompacted > COMPACTION_THRESHOLD && self.current_generation <= u64::MAX - 2 {
            self.compact_internal();
            proof {
                lemma_mirror_transitive(pre, mid, *self);
            }
        }
        Ok(())
    }

    /// Appends an encoded Set record to the current generation and
    /// binds its key in the index.
    fn append_record(
        &mut self,
        cmd: KvsCommand,
        index_key: String,
        Ghost(kv): Ghost<Seq<char>>,
        Ghost(vv): Ghost<Seq<char>>,
    )
        requires
            old(self).wf(),
            old(self).current_sequence >= 1,
            cmd@.command == Some(CommandView::SetCmd { key: kv, value: vv }),
            cmd@.crc_ok(),
            cmd@.sequence_number == old(self).current_sequence,
            index_key@ == kv,
            vstd::utf8::encode_utf8(kv).len() + vstd::utf8::encode_utf8(vv).len()
                <= PAYLOAD_LIMIT,
            spec_total_len(old(self).log_view()) <= TOTAL_BYTES_LIMIT,
        ensures
            final(self).wf(),
            final(self).model() == old(self).model().insert(kv, vv),
            final(self).index_of() == old(self).index_of().insert(
                kv,
                (CommandPos {
                    generation: old(self).generation(),
                    pos: old(self).log_view().last().data@.len() as u64,
                    len: spec_frame(cmd@).len() as u64,
                }),
            ),
            final(self).sequence() == old(self).sequence(),
            final(self).generation() == old(self).generation(),
            final(self).safe_point() == old(self).safe_point(),
            final(self).stale_bytes() == if old(self).index_of().dom().contains(kv) {
                sat_add(old(self).stale_bytes(), old(self).index_of()[kv].len)
            } else {
                old(self).stale_bytes()
            },
            final(self).log_view().len() == old(self).log_view().len(),
            forall|j: int|
                0 <= j < old(self).log_view().len() - 1 ==> final(self).log_view()[j] == old(
                    self,
                ).log_view()[j],
            final(self).log_view().last().generation == old(self).generation(),
            final(self).log_view().last().data@ == old(self).log_view().last().data@ + spec_frame(
                cmd@,
            ),
            final(self).effects_view().len() == old(self).effects_view().len() + 1,
            (final(self).effects_view().last() matches Effect::Append { generation, bytes }
                && generation == old(self).generation() && bytes@ == spec_frame(cmd@)),
            effects_mirror_change(*old(self), *final(self)),
    {
        let ghost st = spec_load(self.logs@)->Ok_0;
        let cmd_bytes = cmd.encode_to_vec();
        proof {
            crate::codec::lemma_record_encoding_len(cmd@);
            crate::codec::lemma_parse_record_encoding(cmd@);
            vstd::bytes::lemma_auto_spec_u32_to_from_le_bytes();
        }
        let body_len = cmd_bytes.len();
        let mut frame = u32_to_le_bytes(body_len as u32);
        frame.extend_from_slice(cmd_bytes.as_slice());
        proof {
            assert(frame@.subrange(0, 4) =~= spec_u32_to_le_bytes(body_len as u32));
            assert(frame@.subrange(4, frame@.len() as int) =~= cmd_bytes@);
            assert(frame@ =~= spec_frame(cmd@));
        }
        let ghost old_files = self.logs@;
        let mut last_file = match self.logs.pop() {
            Some(f) => f,
            None => {
                proof {
                    assert(false);
                }
                LogFile { generation: 0, data: Vec::new() }
            },
        };
        let start = last_file.data.len();
        last_file.data.extend_from_slice(frame.as_slice());
        self.logs.push(last_file);
        proof {
            assert(self.logs@.len() == old_files.len());
            assert(forall|j: int| 0 <= j < old_files.len() - 1 ==> self.logs@[j] == old_files[j]);
            assert(self.logs@.last().data@ == old_files.last().data@ + frame@);
            lemma_replay_logs_extend_last(
                empty_state(),
                old_files,
                self.logs@,
                frame@,
                cmd@,
                0,
            );
            lemma_total_len_extend_last(old_files, self.logs@, frame@, 0);
        }
        let cp = CommandPos {
            generation: self.current_generation,
            pos: start as u64,
            len: frame.len() as u64,
        };
        let prev = index_insert(&mut self.index, index_key, cp);
        if let Some(old_cmd) = prev {
            self.uncompacted = sat_add_u64(self.uncompacted, old_cmd.len);
        }
        self.model = Ghost(self.model@.insert(kv, vv));
        self.effects.push(Effect::Append { generation: self.current_generation, bytes: frame });
        proof {
            self.lemma_one_append_mirrors(*old(self), old_files);
        }
    }

    /// After pushing one Append effect for an extension of the last
    /// file, the queue mirrors the change.
    proof fn lemma_one_append_mirrors(self, pre: KvStore, old_files: Seq<LogFile>)
        requires
            pre.wf(),
            old_files == pre.log_view(),
            self.effects_view().len() == pre.effects_view().len() + 1,
            forall|j: int|
                0 <= j < pre.effects_view().len() ==> self.effects_view()[j]
                    == pre.effects_view()[j],
            (self.effects_view().last() matches Effect::Append { generation, bytes } && generation
                == pre.log_view().last().generation),
            self.log_view().len() == old_files.len(),
            forall|j: int| 0 <= j < old_files.len() - 1 ==> self.log_view()[j] == old_files[j],
            self.log_view().last().generation == old_files.last().generation,
            self.log_view().last().data@ == old_files.last().data@
                + self.effects_view().last()->Append_bytes@,
        ensures
            effects_mirror_change(pre, self),
    {
        let pre_fv = spec_file_views(pre.log_view());
        let e = self.effects_view().last();
        assert forall|i: int, j: int| 0 <= i < j < pre_fv.len() implies (#[trigger] pre_fv[i]).0
            != (#[trigger] pre_fv[j]).0 by {
            assert(pre_fv[i].0 == pre.log_view()[i].generation);
            assert(pre_fv[j].0 == pre.log_view()[j].generation);
        }
        assert(pre_fv.last().0 == pre.log_view().last().generation);
        lemma_apply_append_last(pre_fv, e);
        assert(spec_file_views(self.log_view()) =~= pre_fv.update(
            pre_fv.len() - 1,
            (pre_fv.last().0, pre_fv.last().1 + e->Append_bytes@),
        ));
        let i = pre.effects_view().len() as int;
        assert(self.effects_view()[i] == e);
        assert(spec_apply_effects(
            spec_apply_effect(pre_fv, e),
            self.effects_view(),
            i + 1,
        ) == spec_apply_effect(pre_fv, e));
    }

    /// Appends an encoded Remove record to the current generation and
    /// unbinds its key in the index.
    fn remove_record(&mut self, cmd: KvsCommand, index_key: &String, Ghost(kv): Ghost<Seq<char>>)
        requires
            old(self).wf(),
            old(self).current_sequence >= 1,
            cmd@.command == Some(CommandView::RemoveCmd { key: kv }),
            cmd@.crc_ok(),
            cmd@.sequence_number == old(self).current_sequence,
            index_key@ == kv,
            old(self).index_of().dom().contains(kv),
            vstd::utf8::encode_utf8(kv).len() <= PAYLOAD_LIMIT,
            spec_total_len(old(self).log_view()) <= TOTAL_BYTES_LIMIT,
        ensures
            final(self).wf(),
            final(self).model() == old(self).model().remove(kv),
            final(self).index_of() == old(self).index_of().remove(kv),
            final(self).sequence() == old(self).sequence(),
            final(self).generation() == old(self).generation(),
            final(self).safe_point() == old(self).safe_point(),
            final(self).stale_bytes() == sat_add(
                sat_add(old(self).stale_bytes(), old(self).index_of()[kv].len),
                spec_frame(cmd@).len() as u64,
            ),
            final(self).log_view().len() == old(self).log_view().len(),
            forall|j: int|
                0 <= j < old(self).log_view().len() - 1 ==> final(self).log_view()[j] == old(
                    self,
                ).log_view()[j],
            final(self).log_view().last().generation == old(self).generation(),
            final(self).log_view().last().data@ == old(self).log_view().last().data@ + spec_frame(
                cmd@,
            ),
            final(self).effects_view().len() == old(self).effects_view().len() + 1,
            (final(self).effects_view().last() matches Effect::Append { generation, bytes }
                && generation == old(self).generation() && bytes@ == spec_frame(cmd@)),
            effects_mirror_change(*old(self), *final(self)),
    {
        let ghost st = spec_load(self.logs@)->Ok_0;
        let cmd_bytes = cmd.encode_to_vec();
        proof {
            crate::codec::lemma_record_encoding_len(cmd@);
            crate::codec::lemma_parse_record_encoding(cmd@);
            vstd::bytes::lemma_auto_spec_u32_to_from_le_bytes();
        }
        let body_len = cmd_bytes.len();
        let mut frame = u32_to_le_bytes(body_len as u32);
        frame.extend_from_slice(cmd_bytes.as_slice());
        proof {
            assert(frame@.subrange(0, 4) =~= spec_u32_to_le_bytes(body_len as u32));
            assert(frame@.subrange(4, frame@.len() as int) =~= cmd_bytes@);
            assert(frame@ =~= spec_frame(cmd@));
        }
        let ghost old_files = self.logs@;
        let mut last_file = match self.logs.pop() {
            Some(f) => f,
            None => {
                proof {
                    assert(false);
                }
                LogFile { generation: 0, data: Vec::new() }
            },
        };
        let start = last_file.data.len();
        last_file.data.extend_from_slice(frame.as_slice());
        self.logs.push(last_file);
        proof {
            assert(self.logs@.len() == old_files.len());
            assert(forall|j: int| 0 <= j < old_files.len() - 1 ==> self.logs@[j] == old_files[j]);
            assert(self.logs@.last().data@ == old_files.last().data@ + frame@);
            lemma_replay_logs_extend_last(
                empty_state(),
                old_files,
                self.logs@,
                frame@,
                cmd@,
                0,
            );
            lemma_total_len_extend_last(old_files, self.logs@, frame@, 0);
        }
        let prev = index_remove(&mut self.index, index_key);
        if let Some(old_cmd) = prev {
            self.uncompacted = sat_add_u64(self.uncompacted, old_cmd.len);
        }
        self.uncompacted = sat_add_u64(self.uncompacted, frame.len() as u64);
        self.model = Ghost(self.model@.remove(kv));
        self.effects.push(Effect::Append { generation: self.current_generation, bytes: frame });
        proof {
            self.lemma_one_append_mirrors(*old(self), old_files);
        }
    }

    /// Rewrites all live records into one fresh generation and drops
    /// every older file.  Returns an error, changing nothing, only
    /// when the generation space is exhausted.
    pub fn compact(&mut self) -> (r: Result<(), KvsError>)
        requires
            old(self).wf(),
        ensures
            final(self).wf(),
            r is Ok <==> old(self).generation() <= u64::MAX - 2,
            match r {
                Ok(_) => {
                    &&& final(self).model() == old(self).model()
                    &&& final(self).sequence() == old(self).sequence()
                    &&& compacted_layout(*old(self), *final(self))
                    &&& final(self).index_of().dom() == old(self).index_of().dom()
                    &&& forall|k: Seq<char>|
                        #[trigger] old(self).index_of().dom().contains(k) ==> {
                            &&& final(self).index_of()[k].generation == old(self).generation()
                                + 1
                            &&& final(self).index_of()[k].len == old(self).index_of()[k].len
                            &&& spec_frame_at(
                                final(self).log_view()[0].data@,
                                final(self).index_of()[k],
                            ) == spec_frame_at(
                                spec_file_data(
                                    old(self).log_view(),
                                    old(self).index_of()[k].generation,
                                ),
                                old(self).index_of()[k],
                            )
                        }
                    &&& effects_mirror_change(*old(self), *final(self))
                    &&& spec_total_len(final(self).log_view()) <= spec_total_len(
                        old(self).log_view(),
                    )
                    &&& (old(self).stale_bytes() > 0 ==> spec_total_len(final(self).log_view())
                        < spec_total_len(old(self).log_view()))
                },
                Err(e) => *final(self) == *old(self) && e is StringError,
            },
    {
        if self.current_generation > u64::MAX - 2 {
            return Err(KvsError::StringError(String::from_str("generation numbers exhausted")));
        }
        self.compact_internal();
        Ok(())
    }

    /// The compaction algorithm: copy every live record, verbatim,
    /// into a fresh compaction generation, re-point the index, open a
    /// new append generation beyond it, publish the safe-point and
    /// drop the old files.
    #[verifier::loop_isolation(false)]
    #[verifier::rlimit(100)]
    fn compact_internal(&mut self)
        requires
            old(self).wf(),
            old(self).current_generation <= u64::MAX - 2,
        ensures
            final(self).wf(),
            final(self).model() == old(self).model(),
            final(self).sequence() == old(self).sequence(),
            final(self).stale_bytes() == 0,
            final(self).generation() == old(self).generation() + 2,
            final(self).safe_point() == old(self).generation() + 1,
            final(self).log_view().len() == 2,
            compacted_layout(*old(self), *final(self)),
            final(self).index_of().dom() == old(self).index_of().dom(),
            forall|k: Seq<char>|
                #[trigger] old(self).index_of().dom().contains(k) ==> {
                    &&& final(self).index_of()[k].generation == old(self).generation() + 1
                    &&& final(self).index_of()[k].len == old(self).index_of()[k].len
                    &&& spec_frame_at(final(self).log_view()[0].data@, final(self).index_of()[k])
                        == spec_frame_at(
                        spec_file_data(old(self).log_view(), old(self).index_of()[k].generation),
                        old(self).index_of()[k],
                    )
                },
            effects_mirror_change(*old(self), *final(self)),
            spec_total_len(final(self).log_view()) <= spec_total_len(old(self).log_view()),
            old(self).stale_bytes() > 0 ==> spec_total_len(final(self).log_view())
                < spec_total_len(old(self).log_view()),
    {
        proof {
            self.lemma_wf_bounded();
            lemma_load_valid(self.logs@);
            lemma_load_accounting(self.logs@);
        }
        let ghost st = spec_load(self.logs@)->Ok_0;
        let compaction_generation = self.current_generation + 1;
        let new_generation = self.current_generation + 2;
        let entries = index_entries(&self.index);
        let mut comp_data: Vec<u8> = Vec::new();
        let ghost mut pm: Map<Seq<char>, CommandPos> = Map::empty();
        let ghost mut pmod: Map<Seq<char>, Seq<char>> = Map::empty();
        let ghost mut hs: u64 = 0;
        proof {
            assert(index_view(self.index) =~= st.index.union_prefer_right(pm));
            assert(pm.dom() =~= Set::<Seq<char>>::empty());
            broadcast use vstd::set::fold::lemma_fold_empty;

            assert(spec_live_len(pm) == 0);
        }
        let mut j: usize = 0;
        while j < entries.len()
            invariant
                j <= entries@.len(),
                index_view(self.index) == st.index.union_prefer_right(pm),
                pm.dom().finite(),
                forall|t: int| 0 <= t < j ==> pm.dom().contains(#[trigger] entries@[t].0@),
                forall|k: Seq<char>|
                    #[trigger] pm.dom().contains(k) ==> exists|t: int|
                        0 <= t < j && entries@[t].0@ == k,
                pm.dom() == pmod.dom(),
                forall|k: Seq<char>|
                    #[trigger] pm.dom().contains(k) ==> st.index.dom().contains(k) && pm[k].len
                        == st.index[k].len && pmod[k] == st.model[k],
                forall|k: Seq<char>|
                    #[trigger] pm.dom().contains(k) ==> {
                        &&& pm[k].generation == compaction_generation
                        &&& pm[k].pos + pm[k].len <= comp_data@.len()
                        &&& spec_frame_at(comp_data@, pm[k]) == spec_frame_at(
                            spec_file_data(old(self).logs@, st.index[k].generation),
                            st.index[k],
                        )
                    },
                hs <= self.current_sequence,
                comp_data@.len() == spec_live_len(pm),
                spec_replay_file(empty_state(), comp_data@, compaction_generation, 0) == Ok::<
                    StoreState,
                    LoadFailure,
                >(StoreState { index: pm, model: pmod, uncompacted: 0, highest_seq: hs }),
                self.logs == old(self).logs,
                self.current_generation == old(self).current_generation,
                self.current_sequence == old(self).current_sequence,
                self.uncompacted == old(self).uncompacted,
                self.safe_point == old(self).safe_point,
                self.effects == old(self).effects,
                self.model == old(self).model,
            decreases entries@.len() - j,
        {
            let pair = &entries[j];
            let key_clone = pair.0.clone();
            let cp = pair.1;
            proof {
                assert(st.index.dom().contains(key_clone@));
                assert(!pm.dom().contains(key_clone@)) by {
                    if pm.dom().contains(key_clone@) {
                        let t = choose|t: int| 0 <= t < j && entries@[t].0@ == key_clone@;
                        assert(entries@[t].0@ != entries@[j as int].0@);
                    }
                }
                assert(cp == st.index[key_clone@]);
            }
            let out = copy_live_record(
                &self.logs,
                &mut self.index,
                &mut comp_data,
                key_clone,
                cp,
                compaction_generation,
                Ghost(st),
                Ghost(pm),
                Ghost(pmod),
                Ghost(hs),
            );
            proof {
                let pm_old = pm;
                let cd_old_len = comp_data@.len() - cp.len;
                pm = out.0@;
                pmod = out.1@;
                hs = out.2@;
                assert forall|k: Seq<char>| #[trigger] pm.dom().contains(k) implies {
                    &&& pm[k].generation == compaction_generation
                    &&& pm[k].pos + pm[k].len <= comp_data@.len()
                    &&& spec_frame_at(comp_data@, pm[k]) == spec_frame_at(
                        spec_file_data(old(self).logs@, st.index[k].generation),
                        st.index[k],
                    )
                } by {
                    if k != key_clone@ {
                        assert(pm[k] == pm_old[k]);
                        assert(spec_frame_at(comp_data@, pm[k]) =~= spec_frame_at(
                            comp_data@.subrange(0, cd_old_len),
                            pm[k],
                        ));
                    }
                }
            }
            j = j + 1;
        }
        proof {
            assert(pm.dom() =~= st.index.dom());
            assert(index_view(self.index) =~= pm);
            assert(pmod =~= st.model);
            lemma_live_len_pointwise(st.index, pm);
        }
        let mut deletions: Vec<Effect> = Vec::new();
        let mut d: usize = 0;
        while d < self.logs.len()
            invariant
                d <= self.logs@.len(),
                deletions@.len() == d,
                forall|t: int|
                    0 <= t < d ==> ((#[trigger] deletions@[t]) matches Effect::Delete {
                        generation,
                    } && generation == self.logs@[t].generation),
            decreases self.logs@.len() - d,
        {
            deletions.push(Effect::Delete { generation: self.logs[d].generation });
            d = d + 1;
        }
        let comp_bytes_copy = copy_range(&comp_data, 0, comp_data.len());
        let ghost comp_seq = comp_data@;
        proof {
            assert(comp_bytes_copy@ =~= comp_seq);
        }
        let mut new_logs: Vec<LogFile> = Vec::new();
        new_logs.push(LogFile { generation: compaction_generation, data: comp_data });
        new_logs.push(LogFile { generation: new_generation, data: Vec::new() });
        self.logs = new_logs;
        self.current_generation = new_generation;
        self.safe_point = compaction_generation;
        self.uncompacted = 0;
        self.effects.push(Effect::Create { generation: compaction_generation });
        self.effects.push(
            Effect::Append { generation: compaction_generation, bytes: comp_bytes_copy },
        );
        self.effects.push(Effect::Create { generation: new_generation });
        let ghost deletions_view = deletions@;
        self.effects.append(&mut deletions);
        proof {
            let s_final = StoreState { index: pm, model: pmod, uncompacted: 0, highest_seq: hs };
            assert(self.logs@.len() == 2);
            assert(self.logs@[0].data@ == comp_seq);
            assert(self.logs@[1].data@.len() == 0);
            assert(spec_replay_file(s_final, self.logs@[1].data@, new_generation, 0) == Ok::<
                StoreState,
                LoadFailure,
            >(s_final));
            assert(spec_replay_logs(s_final, self.logs@, 2) == Ok::<StoreState, LoadFailure>(
                s_final,
            ));
            assert(spec_replay_logs(s_final, self.logs@, 1) == Ok::<StoreState, LoadFailure>(
                s_final,
            ));
            assert(spec_load(self.logs@) == Ok::<StoreState, LoadFailure>(s_final));
            assert(spec_total_len(self.logs@) == comp_seq.len()) by {
                assert(spec_total_len_from(self.logs@, 2) == 0);
                assert(spec_total_len_from(self.logs@, 1) == 0);
            }
            let pre = *old(self);
            let pre_fv = spec_file_views(pre.log_view());
            let i0 = pre.effects_view().len() as int;
            assert forall|i: int, j: int| 0 <= i < j < pre_fv.len() implies (
            #[trigger] pre_fv[i]).0 < (#[trigger] pre_fv[j]).0 by {
                assert(pre_fv[i].0 == pre.log_view()[i].generation);
                assert(pre_fv[j].0 == pre.log_view()[j].generation);
            }
            assert forall|i: int| 0 <= i < pre_fv.len() implies (#[trigger] pre_fv[i]).0
                < compaction_generation by {
                assert(pre_fv[i].0 == pre.log_view()[i].generation);
                if i < pre_fv.len() - 1 {
                    assert(pre.log_view()[i].generation
                        < pre.log_view()[pre_fv.len() - 1].generation);
                }
            }
            assert(self.effects@.len() == i0 + 3 + pre_fv.len());
            assert forall|j: int| 0 <= j < pre_fv.len() implies ((
            #[trigger] self.effects@[i0 + 3 + j]) matches Effect::Delete { generation }
                && generation == pre_fv[j].0) by {
                assert(self.effects@[i0 + 3 + j] == deletions_view[j]);
            }
            lemma_compaction_effects(
                pre_fv,
                self.effects@,
                i0,
                compaction_generation,
                new_generation,
                comp_seq,
            );
            assert(spec_file_views(self.logs@) =~= seq![
                (compaction_generation, comp_seq),
                (new_generation, Seq::<u8>::empty()),
            ]);
        }
    }

    /// Hands over, and clears, the queue of directory changes that
    /// the embedding process must mirror to disk.
    pub fn take_effects(&mut self) -> (r: Vec<Effect>)
        ensures
            r@ == old(self).effects_view(),
            final(self).effects_view() == Seq::<Effect>::empty(),
            final(self).wf() == old(self).wf(),
            final(self).model() == old(self).model(),
            final(self).log_view() == old(self).log_view(),
            final(self).generation() == old(self).generation(),
            final(self).sequence() == old(self).sequence(),
            final(self).stale_bytes() == old(self).stale_bytes(),
            final(self).safe_point() == old(self).safe_point(),
    {
        let mut out: Vec<Effect> = Vec::new();
        core::mem::swap(&mut out, &mut self.effects);
        out
    }

    /// The queued directory changes.
    pub closed spec fn effects_view(self) -> Seq<Effect> {
        self.effects@
    }

    /// Opens a store over the log files recovered from a data
    /// directory, given oldest first.  Replays every file in order,
    /// rebuilding the index, the stale-byte count and the sequence
    /// counter, then begins a fresh generation beyond the highest
    /// recovered one.  Replay refuses partial records, undecodable
    /// records and checksum mismatches rather than silently dropping
    /// data.
    pub fn open(logs: Vec<LogFile>) -> (r: Result<KvStore, KvsError>)
        requires
            forall|i: int, j: int|
                0 <= i < j < logs@.len() ==> logs@[i].generation < logs@[j].generation,
            logs@.len() > 0 ==> logs@.last().generation < u64::MAX,
        ensures
            match r {
                Ok(s) => {
                    &&& s.wf()
                    &&& spec_load(logs@) is Ok
                    &&& spec_total_len(logs@) <= u64::MAX
                    &&& s.model() == spec_load(logs@)->Ok_0.model
                    &&& s.sequence() == spec_load(logs@)->Ok_0.highest_seq
                    &&& s.stale_bytes() == spec_load(logs@)->Ok_0.uncompacted
                    &&& s.generation() == if logs@.len() == 0 {
                        1u64
                    } else {
                        (logs@.last().generation + 1) as u64
                    }
                    &&& s.safe_point() == 0
                    &&& s.log_view().len() == logs@.len() + 1
                    &&& forall|i: int| 0 <= i < logs@.len() ==> s.log_view()[i] == logs@[i]
                    &&& s.log_view().last().data@.len() == 0
                    &&& s.effects_view().len() == 1
                    &&& (s.effects_view()[0] matches Effect::Create { generation } && generation
                        == s.generation())
                    &&& spec_file_views(s.log_view()) == spec_apply_effects(
                        spec_file_views(logs@),
                        s.effects_view(),
                        0,
                    )
                },
                Err(e) => {
                    &&& !(spec_load(logs@) is Ok && spec_total_len(logs@) <= u64::MAX)
                    &&& if spec_total_len(logs@) > u64::MAX {
                        e is StringError
                    } else {
                        match spec_load(logs@) {
                            Ok(_) => false,
                            Err(LoadFailure::Truncated) => e is IoError,
                            Err(LoadFailure::Malformed) => e is Deserialize,
                            Err(LoadFailure::Corrupted) => e is CorruptedData,
                        }
                    }
                },
            },
    {
        // The whole set must stay within 64-bit offsets.
        let mut total: u64 = 0;
        let mut i: usize = 0;
        while i < logs.len()
            invariant
                i <= logs@.len(),
                total + spec_total_len_from(logs@, i as int) == spec_total_len(logs@),
                total <= u64::MAX,
            decreases logs@.len() - i,
        {
            proof {
                lemma_total_len_from_nonneg(logs@, i as int + 1);
            }
            let flen = logs[i].data.len() as u64;
            if flen > u64::MAX - total {
                proof {
                    lemma_total_len_from_nonneg(logs@, i as int + 1);
                }
                return Err(
                    KvsError::StringError(String::from_str("log set exceeds addressable size")),
                );
            }
            total = total + flen;
            i = i + 1;
        }
        let mut index = index_new();
        let ghost mut model = Map::<Seq<char>, Seq<char>>::empty();
        let mut uncompacted: u64 = 0;
        let mut highest: u64 = 0;
        let mut i: usize = 0;
        while i < logs.len()
            invariant
                i <= logs@.len(),
                spec_total_len(logs@) <= u64::MAX,
                spec_replay_logs(
                    StoreState {
                        index: index_view(index),
                        model: model,
                        uncompacted: uncompacted,
                        highest_seq: highest,
                    },
                    logs@,
                    i as int,
                ) == spec_load(logs@),
            decreases logs@.len() - i,
        {
            let file_generation = logs[i].generation;
            let ghost pre = StoreState {
                index: index_view(index),
                model: model,
                uncompacted: uncompacted,
                highest_seq: highest,
            };
            let step = load_file(
                &mut index,
                &logs[i].data,
                file_generation,
                uncompacted,
                highest,
                Ghost(model),
            );
            match step {
                Ok((u2, h2, m2)) => {
                    uncompacted = u2;
                    highest = h2;
                    proof {
                        model = m2@;
                    }
                },
                Err(e) => {
                    proof {
                        assert(spec_replay_logs(pre, logs@, i as int) == spec_replay_file(
                            pre,
                            logs@[i as int].data@,
                            logs@[i as int].generation,
                            0,
                        ));
                    }
                    return Err(e);
                },
            }
            i = i + 1;
        }
        let current_generation = if logs.len() == 0 {
            1u64
        } else {
            logs[logs.len() - 1].generation + 1
        };
        let mut logs = logs;
        let ghost recovered = logs@;
        let fresh_file = LogFile { generation: current_generation, data: Vec::new() };
        let ghost fresh = fresh_file;
        logs.push(fresh_file);
        proof {
            let st = StoreState {
                index: index_view(index),
                model: model,
                uncompacted: uncompacted,
                highest_seq: highest,
            };
            lemma_replay_logs_push(empty_state(), recovered, fresh, 0);
            assert(spec_replay_file(st, fresh.data@, current_generation, 0) == Ok::<
                StoreState,
                LoadFailure,
            >(st));
            lemma_total_len_push(recovered, fresh, 0);
        }
        let mut effects: Vec<Effect> = Vec::new();
        effects.push(Effect::Create { generation: current_generation });
        proof {
            let in_fv = spec_file_views(recovered);
            assert(!spec_has_file(in_fv, current_generation)) by {
                assert forall|i: int| 0 <= i < in_fv.len() implies (#[trigger] in_fv[i]).0
                    != current_generation by {
                    assert(in_fv[i].0 == recovered[i].generation);
                    if i < in_fv.len() - 1 {
                        assert(recovered[i].generation < recovered[in_fv.len() - 1].generation);
                    }
                }
            }
            assert(spec_apply_effect(in_fv, effects@[0]) == in_fv.push(
                (current_generation, Seq::<u8>::empty()),
            ));
            assert(spec_file_views(logs@) =~= in_fv.push(
                (current_generation, Seq::<u8>::empty()),
            ));
            assert(spec_apply_effects(spec_apply_effect(in_fv, effects@[0]), effects@, 1)
                == spec_apply_effect(in_fv, effects@[0]));
            assert(spec_apply_effects(in_fv, effects@, 0) == spec_file_views(logs@));
        }
        Ok(
            KvStore {
                logs,
                index,
                current_generation,
                current_sequence: highest,
                uncompacted,
                safe_point: 0,
                effects,
                model: Ghost(model),
            },
        )
    }
}

impl crate::engines::KvsEngine for KvStore {
    open spec fn inv(&self) -> bool {
        self.wf()
    }

    fn set(&mut self, key: String, value: String) -> (r: Result<(), KvsError>) {
        KvStore::set(self, key, value)
    }

    fn get(&self, key: String) -> (r: Result<Option<String>, KvsError>) {
        KvStore::get(self, key)
    }

    fn remove(&mut self, key: String) -> (r: Result<(), KvsError>) {
        KvStore::remove(self, key)
    }
}

/// Replays one log file into the index, the model and the counters.
fn load_file(
    index: &mut KeyIndex,
    data: &Vec<u8>,
    generation: u64,
    uncompacted: u64,
    highest: u64,
    Ghost(model): Ghost<Map<Seq<char>, Seq<char>>>,
) -> (r: Result<(u64, u64, Ghost<Map<Seq<char>, Seq<char>>>), KvsError>)
    ensures
        ({
            let st_in = StoreState {
                index: index_view(*old(index)),
                model: model,
                uncompacted: uncompacted,
                highest_seq: highest,
            };
            match r {
                Ok(out) => spec_replay_file(st_in, data@, generation, 0) == Ok::<
                    StoreState,
                    LoadFailure,
                >(
                    StoreState {
                        index: index_view(*final(index)),
                        model: out.2@,
                        uncompacted: out.0,
                        highest_seq: out.1,
                    },
                ),
                Err(e) => {
                    &&& spec_replay_file(st_in, data@, generation, 0) is Err
                    &&& match spec_replay_file(st_in, data@, generation, 0) {
                        Err(LoadFailure::Truncated) => e is IoError,
                        Err(LoadFailure::Malformed) => e is Deserialize,
                        Err(LoadFailure::Corrupted) => e is CorruptedData,
                        Ok(_) => false,
                    }
                },
            }
        }),
{
    let ghost st_in = StoreState {
        index: index_view(*index),
        model: model,
        uncompacted: uncompacted,
        highest_seq: highest,
    };
    let mut pos: usize = 0;
    let mut unc = uncompacted;
    let mut hi = highest;
    let ghost mut m = model;
    while pos < data.len()
        invariant
            pos <= data@.len(),
            st_in == (StoreState {
                index: index_view(*old(index)),
                model: model,
                uncompacted: uncompacted,
                highest_seq: highest,
            }),
            spec_replay_file(
                StoreState {
                    index: index_view(*index),
                    model: m,
                    uncompacted: unc,
                    highest_seq: hi,
                },
                data@,
                generation,
                pos as int,
            ) == spec_replay_file(st_in, data@, generation, 0),
        decreases data@.len() - pos,
    {
        let ghost cur = StoreState {
            index: index_view(*index),
            model: m,
            uncompacted: unc,
            highest_seq: hi,
        };
        if data.len() - pos < 4 {
            proof {
                assert(spec_replay_file(cur, data@, generation, pos as int) == Err::<
                    StoreState,
                    LoadFailure,
                >(LoadFailure::Truncated));
            }
            return Err(KvsError::IoError(String::from_str("log ends inside a record")));
        }
        let prefix = copy_range(data, pos, pos + 4);
        let n32 = u32_from_le_bytes(prefix.as_slice());
        let n = n32 as usize;
        proof {
            assert(prefix@ =~= data@.subrange(pos as int, pos as int + 4));
        }
        if n > data.len() - (pos + 4) {
            proof {
                assert(spec_replay_file(cur, data@, generation, pos as int) == Err::<
                    StoreState,
                    LoadFailure,
                >(LoadFailure::Truncated));
            }
            return Err(KvsError::IoError(String::from_str("record overruns its log file")));
        }
        let body = copy_range(data, pos + 4, pos + 4 + n);
        let cmd = match KvsCommand::decode(&body) {
            Ok(c) => c,
            Err(e) => {
                return Err(e);
            },
        };
        if !cmd.verify_checksum() {
            return Err(KvsError::CorruptedData);
        }
        let ghost stepped = spec_apply_record(cur, cmd@, generation, pos as u64, (4 + n) as u64);
        proof {
            assert(spec_replay_file(cur, data@, generation, pos as int) == spec_replay_file(
                stepped,
                data@,
                generation,
                pos as int + 4 + n,
            ));
        }
        let sequence_number = cmd.sequence_number;
        match cmd.command {
            Some(Command::SetCmd { key, value }) => {
                let ghost kv = key@;
                let ghost vv = value@;
                let cp = CommandPos {
                    generation,
                    pos: pos as u64,
                    len: (n as u64) + 4,
                };
                let prev = index_insert(index, key, cp);
                if let Some(old_cmd) = prev {
                    unc = sat_add_u64(unc, old_cmd.len);
                }
                proof {
                    m = m.insert(kv, vv);
                }
            },
            Some(Command::RemoveCmd { key }) => {
                let prev = index_remove(index, &key);
                if let Some(old_cmd) = prev {
                    unc = sat_add_u64(unc, old_cmd.len);
                }
                unc = sat_add_u64(unc, (n as u64) + 4);
                proof {
                    m = m.remove(key@);
                }
            },
            None => {
                proof {
                    assert(false);
                }
                return Err(KvsError::UnexpectedCommandType);
            },
        }
        if sequence_number > hi {
            hi = sequence_number;
        }
        pos = pos + 4 + n;
    }
    Ok((unc, hi, Ghost(m)))
}

} // verus!
