//! The sorting job's configuration and the partition naming scheme.
//!
//! Partitions are named deterministically from the output path's parent
//! directory and a running index, so a spill of `n` partitions and the
//! cleanup after the merge speak of exactly the same files.

use vstd::prelude::*;
use vstd::string::StrSliceExecFns;
use vstd::string::StringExecFns;
use crate::text::dec_chars;
use crate::text::format_u64;

verus! {

/// What `std::path::Path::parent` answers for a path string, rendered back
/// to a string: a function of the path string alone.
pub uninterp spec fn parent_dir_of(path: Seq<char>) -> Option<Seq<char>>;

/// Relies on std::path::Path::parent, rendered through Display: the parent
/// of a path string is a function of that string alone; nothing more is
/// assumed of it.
#[verifier::external_body]
fn parent_dir(path: &str) -> (r: Option<String>)
    ensures
        r is Some <==> parent_dir_of(path@) is Some,
        r matches Some(p) ==> parent_dir_of(path@) == Some(p@),
{
    match std::path::Path::new(path).parent() {
        Some(p) => Some(format!("{}", p.display())),
        None => None,
    }
}

/// The file name of partition `index`: a fixed prefix, the index in
/// decimal, and the `.txt` extension.
pub open spec fn partition_file_name(index: u64) -> Seq<char> {
    "sort_temp_file_"@ + dec_chars(index as nat) + ".txt"@
}

/// The full path of partition `index` for a run writing to `output`: the
/// partition sits beside the output file, or bare — relative to the
/// current directory — when the output path has no parent directory.
pub open spec fn partition_path(output: Seq<char>, index: u64) -> Seq<char> {
    match parent_dir_of(output) {
        Some(d) => if d.len() > 0 {
            d + "/"@ + partition_file_name(index)
        } else {
            partition_file_name(index)
        },
        None => partition_file_name(index),
    }
}

/// One sorting job: where to read, where to write, and how many records an
/// in-memory batch may hold.
pub struct Sorter {
    /// Input file path.
    pub input: String,
    /// Output file path.
    pub output: String,
    /// Batch capacity, in records.
    pub batch: usize,
}

impl Sorter {
    /// The path of the numbered temporary partition file of this job.
    pub fn get_temp_file_path(&self, file_num: u64) -> (r: String)
        ensures
            r@ == partition_path(self.output@, file_num),
    {
        let digits = format_u64(file_num);
        let mut r = String::new();
        match parent_dir(self.output.as_str()) {
            Some(p) => {
                if p.as_str().unicode_len() > 0 {
                    r.append(p.as_str());
                    r.append("/");
                }
            },
            None => {},
        }
        r.append("sort_temp_file_");
        r.append(digits.as_str());
        r.append(".txt");
        proof {
            assert(r@ =~= partition_path(self.output@, file_num));
        }
        r
    }

    /// The paths of partitions `0..count`, in index order: exactly the
    /// files a spill of `count` partitions writes, and exactly the files
    /// the merger deletes afterwards.
    pub fn partition_paths(&self, count: u64) -> (r: Vec<String>)
        ensures
            r@.len() == count,
            forall|i: int|
                0 <= i < count ==> #[trigger] r@[i]@ == partition_path(self.output@, i as u64),
    {
        let mut r: Vec<String> = Vec::new();
        let mut i: u64 = 0;
        while i < count
            invariant
                i <= count,
                r@.len() == i,
                forall|k: int|
                    0 <= k < i ==> #[trigger] r@[k]@ == partition_path(self.output@, k as u64),
            decreases count - i,
        {
            let p = self.get_temp_file_path(i);
            r.push(p);
            i = i + 1;
        }
        r
    }
}

} // verus!
