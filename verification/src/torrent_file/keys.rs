use vstd::prelude::*;

verus! {

/// One file of a multi-file torrent.
#[derive(Debug, Clone)]
pub struct FileInfo {
    /// The length of the file in bytes.
    pub length: u64,
    /// Subdirectory names, the last of which is the file name.
    pub path: Vec<String>,
}

/// A torrent holds either one file or a list of files.
#[derive(Debug, Clone)]
pub enum Keys {
    SingleFile { length: u64 },
    MultipleFiles { files: Vec<FileInfo> },
}

/// The sum of the lengths of the given files.
pub open spec fn sum_lengths(files: Seq<FileInfo>) -> nat
    decreases files.len(),
{
    if files.len() == 0 {
        0
    } else {
        sum_lengths(files.drop_last()) + files.last().length as nat
    }
}

impl Keys {
    /// The total number of bytes the torrent describes.
    pub open spec fn total_length(&self) -> nat {
        match self {
            Keys::SingleFile { length } => *length as nat,
            Keys::MultipleFiles { files } => sum_lengths(files@),
        }
    }

    /// The total length: the single file's length, or the sum of the files'
    /// lengths (which must fit in 64 bits).
    pub fn length(&self) -> (n: u64)
        requires
            self.total_length() <= u64::MAX,
        ensures
            n == self.total_length(),
    {
        match self {
            Keys::SingleFile { length } => *length,
            Keys::MultipleFiles { files } => {
                let mut total: u64 = 0;
                let mut i: usize = 0;
                while i < files.len()
                    invariant
                        0 <= i <= files@.len(),
                        sum_lengths(files@) <= u64::MAX,
                        total == sum_lengths(files@.take(i as int)),
                    decreases files@.len() - i,
                {
                    assert(files@.take(i + 1).drop_last() == files@.take(i as int));
                    proof {
                        lemma_sum_lengths_prefix(files@, i + 1);
                    }
                    total = total + files[i].length;
                    i = i + 1;
                }
                assert(files@.take(files@.len() as int) == files@);
                total
            },
        }
    }
}

/// A single-file torrent is as long as its file, for every 64-bit length, and
/// a list holding one file of that length is just as long.
pub proof fn lemma_single_file_length(n: u64, path: Vec<String>, files: Vec<FileInfo>)
    requires
        files@ == seq![FileInfo { length: n, path }],
    ensures
        (Keys::SingleFile { length: n }).total_length() == n as nat,
        (Keys::MultipleFiles { files }).total_length() == n as nat,
{
    assert(files@.drop_last() =~= Seq::<FileInfo>::empty());
    assert(sum_lengths(files@.drop_last()) == 0);
    assert(files@.last().length == n);
    assert(sum_lengths(files@) == n as nat);
}

/// Adding a file to a list adds its length to the list's total.
pub proof fn lemma_files_length_push(files: Seq<FileInfo>, f: FileInfo)
    ensures
        sum_lengths(files.push(f)) == sum_lengths(files) + f.length as nat,
{
    assert(files.push(f).drop_last() =~= files);
}

/// A prefix of a file list never has a larger total length than the whole.
pub proof fn lemma_sum_lengths_prefix(files: Seq<FileInfo>, n: int)
    requires
        0 <= n <= files.len(),
    ensures
        sum_lengths(files.take(n)) <= sum_lengths(files),
    decreases files.len(),
{
    if n < files.len() {
        lemma_sum_lengths_prefix(files.drop_last(), n);
        assert(files.drop_last().take(n) == files.take(n));
    } else {
        assert(files.take(n) == files);
    }
}

} // verus!
