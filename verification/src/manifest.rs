//! The manifest model: the fields of the update manifest that the
//! interpreter consumes, as plain values.
//!
//! The wire encoding of the manifest is decoded outside the library;
//! the interpreter works on these records alone.

use vstd::prelude::*;

verus! {

/// The block size assumed when the manifest does not carry one.
pub const DEFAULT_BLOCK_SIZE: u32 = 4096;

/// An extent as the manifest carries it: a range of whole blocks.
/// Both fields are optional on the wire.
#[derive(Clone, Copy, PartialEq, Eq, Structural, Debug)]
pub struct RawExtent {
    pub start_block: Option<u64>,
    pub num_blocks: Option<u64>,
}

/// One install operation of a partition update.  The numeric type code
/// is kept as the wire carries it; unknown codes are rejected when the
/// operation is interpreted.
#[derive(Clone, PartialEq, Eq, Debug)]
pub struct InstallOperation {
    pub op_type: i32,
    pub data_offset: Option<u64>,
    pub data_length: Option<u64>,
    pub src_sha256_hash: Option<Vec<u8>>,
    pub data_sha256_hash: Option<Vec<u8>>,
    pub src_extents: Vec<RawExtent>,
    pub dst_extents: Vec<RawExtent>,
}

/// One partition's name and ordered list of install operations.
#[derive(Clone, PartialEq, Eq, Debug)]
pub struct PartitionUpdate {
    pub partition_name: String,
    pub operations: Vec<InstallOperation>,
    pub run_postinstall: Option<bool>,
    pub postinstall_path: Option<String>,
}

/// The fields of the update manifest that the interpreter consumes.
#[derive(Clone, PartialEq, Eq, Debug)]
pub struct DeltaArchiveManifest {
    pub block_size: Option<u32>,
    pub minor_version: Option<u32>,
    pub security_patch_level: Option<String>,
    pub partitions: Vec<PartitionUpdate>,
}

/// The operation types of the update engine's wire enumeration.
#[derive(Clone, Copy, PartialEq, Eq, Structural, Debug)]
pub enum OperationType {
    Replace,
    ReplaceBz,
    Move,
    Bsdiff,
    SourceCopy,
    SourceBsdiff,
    Zero,
    Discard,
    ReplaceXz,
    Puffdiff,
    BrotliBsdiff,
    Zucchini,
    Lz4diffBsdiff,
    Lz4diffPuffdiff,
}

/// The operation type a numeric wire code names, if any.
pub open spec fn spec_op_type(code: int) -> Option<OperationType> {
    if code == 0 {
        Some(OperationType::Replace)
    } else if code == 1 {
        Some(OperationType::ReplaceBz)
    } else if code == 2 {
        Some(OperationType::Move)
    } else if code == 3 {
        Some(OperationType::Bsdiff)
    } else if code == 4 {
        Some(OperationType::SourceCopy)
    } else if code == 5 {
        Some(OperationType::SourceBsdiff)
    } else if code == 6 {
        Some(OperationType::Zero)
    } else if code == 7 {
        Some(OperationType::Discard)
    } else if code == 8 {
        Some(OperationType::ReplaceXz)
    } else if code == 9 {
        Some(OperationType::Puffdiff)
    } else if code == 10 {
        Some(OperationType::BrotliBsdiff)
    } else if code == 11 {
        Some(OperationType::Zucchini)
    } else if code == 12 {
        Some(OperationType::Lz4diffBsdiff)
    } else if code == 13 {
        Some(OperationType::Lz4diffPuffdiff)
    } else {
        None
    }
}

impl OperationType {
    /// Decodes a numeric wire code; unknown codes yield `None`.
    pub fn from_code(code: i32) -> (r: Option<OperationType>)
        ensures
            r == spec_op_type(code as int),
    {
        match code {
            0 => Some(OperationType::Replace),
            1 => Some(OperationType::ReplaceBz),
            2 => Some(OperationType::Move),
            3 => Some(OperationType::Bsdiff),
            4 => Some(OperationType::SourceCopy),
            5 => Some(OperationType::SourceBsdiff),
            6 => Some(OperationType::Zero),
            7 => Some(OperationType::Discard),
            8 => Some(OperationType::ReplaceXz),
            9 => Some(OperationType::Puffdiff),
            10 => Some(OperationType::BrotliBsdiff),
            11 => Some(OperationType::Zucchini),
            12 => Some(OperationType::Lz4diffBsdiff),
            13 => Some(OperationType::Lz4diffPuffdiff),
            _ => None,
        }
    }
}

/// Whether an update can be applied without pre-existing images
/// (`Full`), needs them (`Incremental`), or cannot be told
/// (`Unknown`).
#[derive(Clone, Copy, PartialEq, Eq, Structural, Debug)]
pub enum UpdateType {
    Unknown,
    Incremental,
    Full,
}

/// The order of update types: unknown before incremental before full,
/// so that the least type of a collection is the most demanding one.
pub open spec fn update_rank(t: UpdateType) -> int {
    match t {
        UpdateType::Unknown => 0,
        UpdateType::Incremental => 1,
        UpdateType::Full => 2,
    }
}

/// The lesser of two update types.
pub open spec fn update_min(a: UpdateType, b: UpdateType) -> UpdateType {
    if update_rank(b) < update_rank(a) {
        b
    } else {
        a
    }
}

/// The update type of one operation type.
pub open spec fn spec_op_update_type(t: OperationType) -> UpdateType {
    match t {
        OperationType::Move => UpdateType::Incremental,
        OperationType::Bsdiff => UpdateType::Incremental,
        OperationType::Replace => UpdateType::Full,
        OperationType::ReplaceBz => UpdateType::Full,
        OperationType::ReplaceXz => UpdateType::Full,
        OperationType::Zero => UpdateType::Full,
        OperationType::Discard => UpdateType::Full,
        OperationType::SourceCopy => UpdateType::Incremental,
        OperationType::SourceBsdiff => UpdateType::Incremental,
        OperationType::BrotliBsdiff => UpdateType::Incremental,
        OperationType::Puffdiff => UpdateType::Incremental,
        OperationType::Zucchini => UpdateType::Incremental,
        OperationType::Lz4diffBsdiff => UpdateType::Incremental,
        OperationType::Lz4diffPuffdiff => UpdateType::Incremental,
    }
}

/// The update type of one operation record: that of its type code, or
/// unknown for a code outside the enumeration.
pub open spec fn spec_install_op_update_type(op: InstallOperation) -> UpdateType {
    match spec_op_type(op.op_type as int) {
        Some(t) => spec_op_update_type(t),
        None => UpdateType::Unknown,
    }
}

/// The least update type among the first `n` operations, starting from
/// full: a partition needing any incremental operation is incremental.
pub open spec fn spec_ops_update_type(ops: Seq<InstallOperation>, n: int) -> UpdateType
    decreases n,
{
    if n <= 0 {
        UpdateType::Full
    } else {
        update_min(spec_ops_update_type(ops, n - 1), spec_install_op_update_type(ops[n - 1]))
    }
}

/// The least update type among the first `n` partitions.
pub open spec fn spec_parts_update_type(parts: Seq<PartitionUpdate>, n: int) -> UpdateType
    decreases n,
{
    if n <= 0 {
        UpdateType::Full
    } else {
        update_min(
            spec_parts_update_type(parts, n - 1),
            spec_ops_update_type(parts[n - 1].operations@, parts[n - 1].operations@.len() as int),
        )
    }
}

/// What can say whether it describes a full or an incremental update.
pub trait HasUpdateType {
    /// The update type the value describes.
    spec fn spec_update_type(&self) -> UpdateType;

    fn get_update_type(&self) -> (r: UpdateType)
        ensures
            r == self.spec_update_type(),
    ;
}

impl HasUpdateType for OperationType {
    open spec fn spec_update_type(&self) -> UpdateType {
        spec_op_update_type(*self)
    }

    fn get_update_type(&self) -> (r: UpdateType) {
        match self {
            OperationType::Move => UpdateType::Incremental,
            OperationType::Bsdiff => UpdateType::Incremental,
            OperationType::Replace => UpdateType::Full,
            OperationType::ReplaceBz => UpdateType::Full,
            OperationType::ReplaceXz => UpdateType::Full,
            OperationType::Zero => UpdateType::Full,
            OperationType::Discard => UpdateType::Full,
            OperationType::SourceCopy => UpdateType::Incremental,
            OperationType::SourceBsdiff => UpdateType::Incremental,
            OperationType::BrotliBsdiff => UpdateType::Incremental,
            OperationType::Puffdiff => UpdateType::Incremental,
            OperationType::Zucchini => UpdateType::Incremental,
            OperationType::Lz4diffBsdiff => UpdateType::Incremental,
            OperationType::Lz4diffPuffdiff => UpdateType::Incremental,
        }
    }
}

impl HasUpdateType for InstallOperation {
    open spec fn spec_update_type(&self) -> UpdateType {
        spec_install_op_update_type(*self)
    }

    fn get_update_type(&self) -> (r: UpdateType) {
        match OperationType::from_code(self.op_type) {
            Some(t) => t.get_update_type(),
            None => UpdateType::Unknown,
        }
    }
}

/// The lesser of two update types.
fn update_min_exec(a: UpdateType, b: UpdateType) -> (r: UpdateType)
    ensures
        r == update_min(a, b),
{
    let ra: u8 = match a {
        UpdateType::Unknown => 0,
        UpdateType::Incremental => 1,
        UpdateType::Full => 2,
    };
    let rb: u8 = match b {
        UpdateType::Unknown => 0,
        UpdateType::Incremental => 1,
        UpdateType::Full => 2,
    };
    if rb < ra {
        b
    } else {
        a
    }
}

impl HasUpdateType for PartitionUpdate {
    open spec fn spec_update_type(&self) -> UpdateType {
        spec_ops_update_type(self.operations@, self.operations@.len() as int)
    }

    fn get_update_type(&self) -> (r: UpdateType) {
        let mut acc = UpdateType::Full;
        let mut i: usize = 0;
        let n = self.operations.len();
        while i < n
            invariant
                i <= n,
                n == self.operations@.len(),
                acc == spec_ops_update_type(self.operations@, i as int),
            decreases n - i,
        {
            let t = self.operations[i].get_update_type();
            acc = update_min_exec(acc, t);
            i += 1;
        }
        acc
    }
}

impl HasUpdateType for DeltaArchiveManifest {
    open spec fn spec_update_type(&self) -> UpdateType {
        spec_parts_update_type(self.partitions@, self.partitions@.len() as int)
    }

    fn get_update_type(&self) -> (r: UpdateType) {
        let mut acc = UpdateType::Full;
        let mut i: usize = 0;
        let n = self.partitions.len();
        while i < n
            invariant
                i <= n,
                n == self.partitions@.len(),
                acc == spec_parts_update_type(self.partitions@, i as int),
            decreases n - i,
        {
            let t = self.partitions[i].get_update_type();
            acc = update_min_exec(acc, t);
            i += 1;
        }
        acc
    }
}

} // verus!
