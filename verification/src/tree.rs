use vstd::prelude::*;

verus! {

/// The mathematical content of one file inside a relocated entry: its
/// path below the entry, split into segments, and its bytes.
pub struct FileV {
    pub segments: Seq<Seq<char>>,
    pub bytes: Seq<u8>,
}

/// One file inside a relocated entry.
pub struct FsFile {
    /// Path segments below the entry's own top-level name.  Empty when
    /// the entry is a plain file.
    pub segments: Vec<String>,
    /// The file's content.
    pub bytes: Vec<u8>,
}

impl View for FsFile {
    type V = FileV;

    open spec fn view(&self) -> FileV {
        FileV { segments: self.segments.deep_view(), bytes: self.bytes@ }
    }
}

/// The full content of a filesystem entry, file or directory: the flat
/// list of files in its subtree.  A plain file is a single-element list
/// with no segments.
pub struct TreeData {
    pub files: Vec<FsFile>,
}

impl View for TreeData {
    type V = Seq<FileV>;

    open spec fn view(&self) -> Seq<FileV> {
        self.files@.map_values(|f: FsFile| f@)
    }
}

/// Byte-for-byte copy of one file.
pub fn copy_file(f: &FsFile) -> (r: FsFile)
    ensures
        r@ == f@,
{
    let mut segments: Vec<String> = Vec::new();
    let mut i: usize = 0;
    while i < f.segments.len()
        invariant
            i <= f.segments@.len(),
            segments@.len() == i,
            forall|k: int| 0 <= k < i ==> segments@[k] == f.segments@[k],
        decreases f.segments@.len() - i,
    {
        segments.push(f.segments[i].clone());
        i += 1;
    }
    let mut bytes: Vec<u8> = Vec::new();
    let mut j: usize = 0;
    while j < f.bytes.len()
        invariant
            j <= f.bytes@.len(),
            bytes@ == f.bytes@.subrange(0, j as int),
        decreases f.bytes@.len() - j,
    {
        bytes.push(f.bytes[j]);
        proof {
            assert(bytes@ =~= f.bytes@.subrange(0, j + 1));
        }
        j += 1;
    }
    proof {
        assert(segments@ =~= f.segments@);
        assert(f.bytes@.subrange(0, f.bytes@.len() as int) =~= f.bytes@);
    }
    let r = FsFile { segments, bytes };
    proof {
        assert(r@.segments =~~= f@.segments);
    }
    r
}

/// Byte-for-byte copy of a whole subtree.
pub fn copy_tree(t: &TreeData) -> (r: TreeData)
    ensures
        r@ == t@,
{
    let mut files: Vec<FsFile> = Vec::new();
    let mut i: usize = 0;
    while i < t.files.len()
        invariant
            i <= t.files@.len(),
            files@.len() == i,
            forall|k: int| 0 <= k < i ==> #[trigger] files@[k]@ == t.files@[k]@,
        decreases t.files@.len() - i,
    {
        files.push(copy_file(&t.files[i]));
        i += 1;
    }
    let r = TreeData { files };
    proof {
        assert(r@ =~= t@);
    }
    r
}

} // verus!
