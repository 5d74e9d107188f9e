//! The file-transfer engine: the files offered to peers, and the files
//! being received from them, by transfer id.
//!
//! The engine keeps the bookkeeping; the caller does the file I/O it asks
//! for (reading a chunk at an offset, appending a received chunk).
use crate::ids::fresh_id;
use std::collections::HashMap;
use vstd::prelude::*;

verus! {

broadcast use vstd::std_specs::hash::group_hash_axioms;

/// The most bytes one chunk carries.
pub const CHUNK_SIZE: u64 = 65536;

/// The directory received files are written to.
pub const DOWNLOAD_DIR: &'static str = "downloads";

/// Why a transfer operation failed.
#[derive(Debug, Clone, Copy, PartialEq, Eq, Structural)]
pub enum TransferError {
    /// No transfer with that id is tracked.
    TransferNotFound,
}

/// A file being received: where it goes, its declared size, and how many
/// bytes have arrived. Chunks are appended in the order they are applied;
/// their offsets are not used.
pub struct FileReceive {
    pub path: String,
    pub size: u64,
    pub received: u64,
}

pub struct FileReceiveView {
    pub path: Seq<char>,
    pub size: u64,
    pub received: u64,
}

impl View for FileReceive {
    type V = FileReceiveView;

    open spec fn view(&self) -> FileReceiveView {
        FileReceiveView { path: self.path@, size: self.size, received: self.received }
    }
}

/// The final component of a path, as `std::path::Path::file_name` gives it.
pub uninterp spec fn file_name_of(path: Seq<char>) -> Option<Seq<char>>;

/// Relies on `std::path::Path::file_name`: the final component of `path`, if
/// there is one (none, for instance, when the path ends in `..`). The result
/// depends on the path alone; a component of a `&str` path is valid UTF-8, so
/// `OsStr::to_str` only converts it.
#[verifier::external_body]
fn path_file_name(path: &str) -> (r: Option<String>)
    ensures
        match r {
            Some(n) => file_name_of(path@) == Some(n@),
            None => file_name_of(path@) is None,
        },
{
    match std::path::Path::new(path).file_name() {
        Some(n) => match n.to_str() {
            Some(s) => Some(s.to_string()),
            None => None,
        },
        None => None,
    }
}

/// The name under which a file at `path` is offered.
pub open spec fn offered_name_of(path: Seq<char>) -> Seq<char> {
    match file_name_of(path) {
        Some(n) => n,
        None => "unknown"@,
    }
}

/// Where a file offered under `name` is written.
pub open spec fn destination_of(name: Seq<char>) -> Seq<char> {
    DOWNLOAD_DIR@ + "/"@ + name
}

/// The length of the chunk that starts at `offset` in a file of `file_len`
/// bytes, or none at the end of the file.
pub open spec fn chunk_len_of(offset: u64, file_len: u64) -> Option<u64> {
    if offset >= file_len {
        None
    } else if file_len - offset >= CHUNK_SIZE {
        Some(CHUNK_SIZE)
    } else {
        Some((file_len - offset) as u64)
    }
}

/// A receive after `len` more bytes arrived. The count stops at `u64::MAX`,
/// which is still at least any declared size.
pub open spec fn after_chunk(t: FileReceiveView, len: nat) -> FileReceiveView {
    FileReceiveView {
        received: if t.received + len > u64::MAX {
            u64::MAX
        } else {
            (t.received + len) as u64
        },
        ..t
    }
}

/// Whether a receive is complete once `len` more bytes arrived.
pub open spec fn completes(t: FileReceiveView, len: nat) -> bool {
    t.received + len >= t.size
}

/// The name under which the file at `path` is offered: its last component,
/// or `unknown` when it has none.
pub fn offered_name(path: &str) -> (r: String)
    ensures
        r@ == offered_name_of(path@),
{
    match path_file_name(path) {
        Some(n) => n,
        None => String::from_str("unknown"),
    }
}

/// The path a file offered under `name` is written to. The name is used as
/// given: a peer that offers `../x` writes outside the directory.
pub fn destination_path(name: &str) -> (r: String)
    ensures
        r@ == destination_of(name@),
{
    let mut p = String::from_str(DOWNLOAD_DIR);
    p.append("/");
    p.append(name);
    p
}

/// How many bytes to read for the chunk at `offset` of a file of `file_len`
/// bytes: none at or past the end, else up to [`CHUNK_SIZE`].
pub fn chunk_len(offset: u64, file_len: u64) -> (r: Option<u64>)
    ensures
        r == chunk_len_of(offset, file_len),
{
    if offset >= file_len {
        None
    } else if file_len - offset >= CHUNK_SIZE {
        Some(CHUNK_SIZE)
    } else {
        Some(file_len - offset)
    }
}

/// The outbound and inbound transfers of this node.
pub struct FileTransfer {
    active_sends: HashMap<u128, String>,
    active_receives: HashMap<u128, FileReceive>,
}

impl FileTransfer {
    /// The paths of the files offered, by transfer id.
    pub closed spec fn sends_view(&self) -> Map<u128, Seq<char>> {
        self.active_sends@.map_values(|p: String| p@)
    }

    /// The files being received, by transfer id.
    pub closed spec fn receives_view(&self) -> Map<u128, FileReceiveView> {
        self.active_receives@.map_values(|t: FileReceive| t@)
    }

    /// No transfers.
    pub fn new() -> (r: FileTransfer)
        ensures
            r.sends_view() == Map::<u128, Seq<char>>::empty(),
            r.receives_view() == Map::<u128, FileReceiveView>::empty(),
    {
        let r = FileTransfer { active_sends: HashMap::new(), active_receives: HashMap::new() };
        assert(r.sends_view() =~= Map::<u128, Seq<char>>::empty());
        assert(r.receives_view() =~= Map::<u128, FileReceiveView>::empty());
        r
    }

    /// Offers the file at `path`, of `size` bytes, under a fresh random id.
    /// Returns the id, the name it is offered under, and the size.
    pub fn prepare_send(&mut self, path: String, size: u64) -> (r: (u128, String, u64))
        ensures
            final(self).sends_view() == old(self).sends_view().insert(r.0, path@),
            final(self).receives_view() == old(self).receives_view(),
            r.1@ == offered_name_of(path@),
            r.2 == size,
    {
        let id = fresh_id();
        let name = offered_name(path.as_str());
        self.register_send(id, path);
        (id, name, size)
    }

    /// Tracks the file at `path` as offered under `id`.
    pub fn register_send(&mut self, id: u128, path: String)
        ensures
            final(self).sends_view() == old(self).sends_view().insert(id, path@),
            final(self).receives_view() == old(self).receives_view(),
    {
        let ghost p = path@;
        self.active_sends.insert(id, path);
        assert(self.sends_view() =~= old(self).sends_view().insert(id, p));
    }

    /// The path of the file offered under `id`.
    pub fn source_path(&self, id: u128) -> (r: Result<String, TransferError>)
        ensures
            match r {
                Ok(p) => self.sends_view().contains_key(id) && p@ == self.sends_view()[id],
                Err(e) => !self.sends_view().contains_key(id) && e
                    == TransferError::TransferNotFound,
            },
    {
        match self.active_sends.get(&id) {
            Some(p) => Ok(p.clone()),
            None => Err(TransferError::TransferNotFound),
        }
    }

    /// Starts receiving the file offered as `name`, of `size` bytes, under
    /// `id`; returns the path it is written to. A receive already tracked
    /// under `id` is replaced.
    pub fn prepare_receive(&mut self, id: u128, name: &str, size: u64) -> (r: String)
        ensures
            r@ == destination_of(name@),
            final(self).receives_view() == old(self).receives_view().insert(
                id,
                FileReceiveView { path: r@, size, received: 0 },
            ),
            final(self).sends_view() == old(self).sends_view(),
    {
        let path = destination_path(name);
        let t = FileReceive { path: path.clone(), size, received: 0 };
        let ghost v = t@;
        self.active_receives.insert(id, t);
        assert(self.receives_view() =~= old(self).receives_view().insert(id, v));
        path
    }

    /// Counts `data`, just appended to the file received under `id`, and
    /// tells whether the file is now complete.
    pub fn receive_chunk(&mut self, id: u128, _offset: u64, data: &[u8]) -> (r: Result<
        bool,
        TransferError,
    >)
        ensures
            final(self).sends_view() == old(self).sends_view(),
            match r {
                Ok(done) => {
                    &&& old(self).receives_view().contains_key(id)
                    &&& done == completes(old(self).receives_view()[id], data@.len())
                    &&& final(self).receives_view() == old(self).receives_view().insert(
                        id,
                        after_chunk(old(self).receives_view()[id], data@.len()),
                    )
                },
                Err(e) => {
                    &&& !old(self).receives_view().contains_key(id)
                    &&& e == TransferError::TransferNotFound
                    &&& final(self).receives_view() == old(self).receives_view()
                },
            },
    {
        let t = match self.active_receives.remove(&id) {
            Some(t) => t,
            None => {
                assert(self.receives_view() =~= old(self).receives_view());
                return Err(TransferError::TransferNotFound);
            },
        };
        let n: usize = data.len();
        let received = t.received.saturating_add(n as u64);
        let done = received >= t.size;
        let u = FileReceive { path: t.path, size: t.size, received };
        let ghost v = u@;
        self.active_receives.insert(id, u);
        assert(v == after_chunk(old(self).receives_view()[id], data@.len()));
        assert(self.receives_view() =~= old(self).receives_view().insert(id, v));
        Ok(done)
    }

    /// Stops tracking `id`, outbound and inbound; nothing happens for an
    /// unknown id.
    pub fn complete(&mut self, id: u128)
        ensures
            final(self).sends_view() == old(self).sends_view().remove(id),
            final(self).receives_view() == old(self).receives_view().remove(id),
    {
        self.active_sends.remove(&id);
        self.active_receives.remove(&id);
        assert(self.sends_view() =~= old(self).sends_view().remove(id));
        assert(self.receives_view() =~= old(self).receives_view().remove(id));
    }

    /// Applies a chunk that was appended to the file received under `id`:
    /// counts it, and once the file is complete stops tracking the transfer.
    pub fn apply_chunk(&mut self, id: u128, offset: u64, data: &[u8]) -> (r: Result<
        bool,
        TransferError,
    >)
        ensures
            match r {
                Ok(done) => {
                    &&& old(self).receives_view().contains_key(id)
                    &&& done == completes(old(self).receives_view()[id], data@.len())
                    &&& done ==> final(self).receives_view() == old(self).receives_view().remove(
                        id,
                    ) && final(self).sends_view() == old(self).sends_view().remove(id)
                    &&& !done ==> final(self).receives_view() == old(
                        self,
                    ).receives_view().insert(
                        id,
                        after_chunk(old(self).receives_view()[id], data@.len()),
                    ) && final(self).sends_view() == old(self).sends_view()
                },
                Err(e) => {
                    &&& !old(self).receives_view().contains_key(id)
                    &&& e == TransferError::TransferNotFound
                    &&& final(self).receives_view() == old(self).receives_view()
                    &&& final(self).sends_view() == old(self).sends_view()
                },
            },
    {
        let r = self.receive_chunk(id, offset, data);
        if let Ok(true) = r {
            self.complete(id);
            assert(final(self).receives_view() =~= old(self).receives_view().remove(id));
        }
        r
    }
}

/// The sum of `lens`.
pub open spec fn total(lens: Seq<nat>) -> nat
    decreases lens.len(),
{
    if lens.len() == 0 {
        0
    } else {
        total(lens.drop_last()) + lens.last()
    }
}

/// A receive after chunks of lengths `lens` arrived, in order.
pub open spec fn after_chunks(t: FileReceiveView, lens: Seq<nat>) -> FileReceiveView
    decreases lens.len(),
{
    if lens.len() == 0 {
        t
    } else {
        after_chunk(after_chunks(t, lens.drop_last()), lens.last())
    }
}

proof fn lemma_after_chunks(t: FileReceiveView, lens: Seq<nat>)
    requires
        t.received == 0,
    ensures
        after_chunks(t, lens).size == t.size,
        after_chunks(t, lens).path == t.path,
        after_chunks(t, lens).received == if total(lens) > u64::MAX {
            u64::MAX as nat
        } else {
            total(lens)
        },
    decreases lens.len(),
{
    if lens.len() > 0 {
        lemma_after_chunks(t, lens.drop_last());
    }
}

/// Chunk completion: on a receive that starts empty, applying chunks of
/// lengths `lens` in turn, call `k` reports completion exactly when the bytes
/// of calls `0..=k` together reach the declared size. Every call before the
/// first that reaches it reports `false`.
pub proof fn lemma_completion_threshold(t: FileReceiveView, lens: Seq<nat>, k: int)
    requires
        t.received == 0,
        0 <= k < lens.len(),
    ensures
        completes(after_chunks(t, lens.take(k)), lens[k]) <==> total(lens.take(k + 1)) >= t.size,
{
    lemma_after_chunks(t, lens.take(k));
    assert(lens.take(k + 1).drop_last() =~= lens.take(k));
}

/// Completing a transfer twice leaves the same tables as completing it once.
pub proof fn lemma_complete_idempotent(
    sends: Map<u128, Seq<char>>,
    receives: Map<u128, FileReceiveView>,
    id: u128,
)
    ensures
        sends.remove(id).remove(id) == sends.remove(id),
        receives.remove(id).remove(id) == receives.remove(id),
{
    assert(sends.remove(id).remove(id) =~= sends.remove(id));
    assert(receives.remove(id).remove(id) =~= receives.remove(id));
}

} // verus!
