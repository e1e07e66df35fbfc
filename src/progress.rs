use vstd::prelude::*;

verus! {

/// Files larger than this many bytes report progress less often.
pub const LARGE_FILE_BYTES: u64 = 10000000000;

/// A large file reports progress once in this many chunks.
pub const LARGE_FILE_STRIDE: usize = 1000;

/// Any other file reports progress once in this many chunks.
pub const SMALL_FILE_STRIDE: usize = 100;

/// The size of the chunks a file is streamed in.
pub const CHUNK_BYTES: usize = 8192;

/// How many chunks of a file of `file_size` bytes go by per progress report.
pub open spec fn stride_for(file_size: usize) -> usize {
    if file_size as u64 > LARGE_FILE_BYTES {
        LARGE_FILE_STRIDE
    } else {
        SMALL_FILE_STRIDE
    }
}

/// The stride of a copy's progress reports: one chunk in `.0` gets one.
pub struct MsgLogBoundary(pub usize);

impl From<usize> for MsgLogBoundary {
    /// The stride for a file of `value` bytes.
    fn from(value: usize) -> Self {
        if value as u64 > LARGE_FILE_BYTES {
            MsgLogBoundary(LARGE_FILE_STRIDE)
        } else {
            MsgLogBoundary(SMALL_FILE_STRIDE)
        }
    }
}

impl vstd::std_specs::convert::FromSpecImpl<usize> for MsgLogBoundary {
    open spec fn obeys_from_spec() -> bool {
        true
    }

    open spec fn from_spec(v: usize) -> MsgLogBoundary {
        MsgLogBoundary(stride_for(v))
    }
}

/// The percentage of a file of `size` bytes that `done` bytes make, whole
/// and at most 100; an empty file is complete from the start.
pub open spec fn percent(done: nat, size: nat) -> nat {
    if size == 0 || done >= size {
        100
    } else {
        done * 100 / size
    }
}

/// The percentage of a file of `size` bytes that `done` bytes make.
pub fn progress_percent(done: usize, size: usize) -> (r: usize)
    ensures
        r == percent(done as nat, size as nat),
        r <= 100,
{
    if size == 0 || done >= size {
        100
    } else {
        let scaled: u128 = (done as u128) * 100;
        let r: u128 = scaled / (size as u128);
        assert(r < 100) by (nonlinear_arith)
            requires
                r == scaled / (size as u128),
                scaled == done * 100,
                done < size,
                size > 0,
        ;
        r as usize
    }
}

/// A progress report of one file copy.
#[derive(Debug)]
pub struct Msg {
    pub id: usize,
    pub file_name: String,
    pub progress: usize,
}

/// The bookkeeping of one file copy as its chunks go by: how much has been
/// transferred, and which chunks get a progress report.
#[derive(Debug)]
pub struct FileProgress {
    pub id: usize,
    pub file_name: String,
    pub file_size: usize,
    pub stride: usize,
    pub transferred: usize,
    pub chunks: usize,
    pub finished: bool,
}

impl FileProgress {
    pub open spec fn wf(&self) -> bool {
        &&& self.stride == stride_for(self.file_size)
        &&& self.chunks <= self.transferred
    }

    /// The report of the copy of `file_name`, `id`, at `progress` percent.
    pub open spec fn report(&self, progress: nat) -> Option<Msg> {
        Some(Msg { id: self.id, file_name: self.file_name, progress: progress as usize })
    }

    /// The bookkeeping of a copy of a file of `file_size` bytes, before its
    /// first chunk.
    pub fn new(id: usize, file_name: String, file_size: usize) -> (r: Self)
        ensures
            r.wf(),
            r.id == id,
            r.file_name == file_name,
            r.file_size == file_size,
            r.transferred == 0,
            r.chunks == 0,
            !r.finished,
    {
        let boundary = MsgLogBoundary::from(file_size);
        FileProgress {
            id,
            file_name,
            file_size,
            stride: boundary.0,
            transferred: 0,
            chunks: 0,
            finished: false,
        }
    }

    /// Takes in one read of `bytes_read` bytes; a read of none ends the
    /// stream. A chunk gets a report when it is one of every `stride`,
    /// starting with the first; the end of the stream always gets one, so
    /// an empty file reports completion without any chunk.
    pub fn on_chunk(&mut self, bytes_read: usize) -> (r: Option<Msg>)
        requires
            old(self).wf(),
            !old(self).finished,
            old(self).transferred + bytes_read <= usize::MAX,
        ensures
            final(self).wf(),
            final(self).id == old(self).id,
            final(self).file_name == old(self).file_name,
            final(self).file_size == old(self).file_size,
            final(self).transferred == old(self).transferred + bytes_read,
            bytes_read == 0 ==> {
                &&& final(self).finished
                &&& final(self).chunks == old(self).chunks
                &&& r == old(self).report(
                    percent(old(self).transferred as nat, old(self).file_size as nat),
                )
            },
            bytes_read > 0 ==> {
                &&& !final(self).finished
                &&& final(self).chunks == old(self).chunks + 1
                &&& r == if old(self).chunks % old(self).stride == 0 {
                    old(self).report(
                        percent(final(self).transferred as nat, old(self).file_size as nat),
                    )
                } else {
                    None
                }
            },
    {
        if bytes_read == 0 {
            self.finished = true;
            let progress = progress_percent(self.transferred, self.file_size);
            return Some(Msg { id: self.id, file_name: self.file_name.clone(), progress });
        }
        self.transferred = self.transferred + bytes_read;
        let due = self.chunks % self.stride == 0;
        self.chunks = self.chunks + 1;
        if due {
            let progress = progress_percent(self.transferred, self.file_size);
            Some(Msg { id: self.id, file_name: self.file_name.clone(), progress })
        } else {
            None
        }
    }
}

/// The last known progress of one file.
#[derive(Debug)]
pub struct ProgressEntry {
    pub file_name: String,
    pub progress: usize,
}

/// The last known progress of every file reported so far, one entry per
/// file name, in the order the names were first reported.
pub struct ProgressTable {
    entries: Vec<ProgressEntry>,
}

/// No file name stands twice.
pub open spec fn keys_unique(s: Seq<(Seq<char>, usize)>) -> bool {
    forall|a: int, b: int| 0 <= a < b < s.len() ==> s[a].0 != s[b].0
}

impl View for ProgressTable {
    type V = Seq<(Seq<char>, usize)>;

    closed spec fn view(&self) -> Seq<(Seq<char>, usize)> {
        self.entries@.map_values(|e: ProgressEntry| (e.file_name@, e.progress))
    }
}

impl ProgressTable {
    pub open spec fn wf(&self) -> bool {
        keys_unique(self@)
    }

    /// A table with no entries.
    pub fn new() -> (r: Self)
        ensures
            r.wf(),
            r@ == Seq::<(Seq<char>, usize)>::empty(),
    {
        let r = ProgressTable { entries: Vec::new() };
        assert(r@ =~= Seq::<(Seq<char>, usize)>::empty());
        r
    }

    /// The number of files in the table.
    pub fn len(&self) -> (r: usize)
        ensures
            r == self@.len(),
    {
        self.entries.len()
    }

    /// The entry at position `i`.
    pub fn entry(&self, i: usize) -> (r: &ProgressEntry)
        requires
            i < self@.len(),
        ensures
            (r.file_name@, r.progress) == self@[i as int],
    {
        &self.entries[i]
    }

    /// The position of `file_name` in the table, if it stands there.
    pub fn find(&self, file_name: &String) -> (r: Option<usize>)
        requires
            self.wf(),
        ensures
            match r {
                Some(i) => i < self@.len() && self@[i as int].0 == file_name@,
                None => forall|i: int| 0 <= i < self@.len() ==> self@[i].0 != file_name@,
            },
    {
        let n = self.entries.len();
        let mut i: usize = 0;
        while i < n
            invariant
                n == self@.len(),
                i <= n,
                forall|k: int| 0 <= k < i ==> self@[k].0 != file_name@,
            decreases n - i,
        {
            if self.entries[i].file_name == *file_name {
                return Some(i);
            }
            i = i + 1;
        }
        None
    }

    /// Records a report: the file's entry takes the reported progress, or a
    /// new entry is added at the end for a file not seen before.
    pub fn record(&mut self, msg: Msg)
        requires
            old(self).wf(),
        ensures
            final(self).wf(),
            forall|i: int|
                0 <= i < old(self)@.len() && old(self)@[i].0 == msg.file_name@ ==> final(self)@
                    == old(self)@.update(i, (msg.file_name@, msg.progress)),
            (forall|i: int| 0 <= i < old(self)@.len() ==> old(self)@[i].0 != msg.file_name@)
                ==> final(self)@ == old(self)@.push((msg.file_name@, msg.progress)),
    {
        let ghost old_view = self@;
        match self.find(&msg.file_name) {
            Some(i) => {
                let entry = ProgressEntry { file_name: msg.file_name, progress: msg.progress };
                self.entries.set(i, entry);
                assert(self@ =~= old_view.update(i as int, (msg.file_name@, msg.progress)));
            },
            None => {
                let entry = ProgressEntry { file_name: msg.file_name, progress: msg.progress };
                self.entries.push(entry);
                assert(self@ =~= old_view.push((msg.file_name@, msg.progress)));
            },
        }
    }

    /// The last known progress of `file_name`, if it has been reported.
    pub fn get(&self, file_name: &String) -> (r: Option<usize>)
        requires
            self.wf(),
        ensures
            match r {
                Some(p) => exists|i: int|
                    0 <= i < self@.len() && self@[i] == (file_name@, p),
                None => forall|i: int| 0 <= i < self@.len() ==> self@[i].0 != file_name@,
            },
    {
        match self.find(file_name) {
            Some(i) => Some(self.entries[i].progress),
            None => None,
        }
    }
}

} // verus!
