use std::borrow::Cow;
use std::sync::Arc;
use vstd::prelude::*;

verus! {

/// A record held in memory, as a trie-shaped index keeps it: a data record
/// (a key and its value, borrowed from the map or owned), or an interior
/// node of the trie.
#[derive(Debug)]
pub enum Record<'a> {
    /// A data record: a key and its value.
    Data([u8; 32], Cow<'a, [u8]>),
    /// A trie node: whether it is the root, the bitmap of the children
    /// present, and the children in bitmap order.
    HamtNode(bool, u64, Vec<RecordPtr<'a>>),
}

/// A pointer to another record, either in memory or on disk.
#[derive(Debug)]
pub enum RecordPtr<'a> {
    /// A record held in memory.
    InMemory(Arc<Record<'a>>),
    /// A record on disk, at a byte offset.
    OnDisk(u64),
}

/// `b` holds the same record as `a`: the same key and value bytes, or the
/// same flags and bitmap with children that hold the same records.
pub open spec fn same_record<'a, 'b>(a: Record<'a>, b: Record<'b>) -> bool
    decreases a,
{
    match a {
        Record::Data(k, v) => match b {
            Record::Data(k2, v2) => k2 == k && v2@ == v@,
            Record::HamtNode(..) => false,
        },
        Record::HamtNode(root, bitmap, children) => match b {
            Record::Data(..) => false,
            Record::HamtNode(root2, bitmap2, children2) => {
                &&& root2 == root
                &&& bitmap2 == bitmap
                &&& children2@.len() == children@.len()
                &&& forall|i: int|
                    0 <= i < children@.len() ==> same_ptr(
                        #[trigger] children@[i],
                        children2@[i],
                    )
            },
        },
    }
}

/// `b` points at the same record as `a`: the same disk offset, or a record
/// in memory that holds the same record.
pub open spec fn same_ptr<'a, 'b>(a: RecordPtr<'a>, b: RecordPtr<'b>) -> bool
    decreases a,
{
    match a {
        RecordPtr::OnDisk(o) => b == RecordPtr::<'b>::OnDisk(o),
        RecordPtr::InMemory(r) => match b {
            RecordPtr::InMemory(r2) => same_record(*r, *r2),
            RecordPtr::OnDisk(_) => false,
        },
    }
}

/// A copy of some bytes.
fn copy_bytes(b: &[u8]) -> (r: Vec<u8>)
    ensures
        r@ == b@,
{
    let mut r: Vec<u8> = Vec::new();
    let mut i: usize = 0;
    while i < b.len()
        invariant
            0 <= i <= b@.len(),
            r@ == b@.subrange(0, i as int),
        decreases b@.len() - i,
    {
        r.push(b[i]);
        i = i + 1;
        assert(r@ =~= b@.subrange(0, i as int));
    }
    assert(b@.subrange(0, b@.len() as int) =~= b@);
    r
}

impl<'a> Record<'a> {
    /// A copy of the record that owns all its data.
    fn owned_copy(&self) -> (r: Record<'static>)
        ensures
            same_record(*self, r),
        decreases self,
    {
        match self {
            Record::Data(k, v) => {
                let bytes = match v {
                    Cow::Borrowed(b) => copy_bytes(b),
                    Cow::Owned(o) => copy_bytes(o.as_slice()),
                };
                Record::Data(*k, Cow::Owned(bytes))
            },
            Record::HamtNode(root, bitmap, children) => {
                let mut copied: Vec<RecordPtr<'static>> = Vec::new();
                let mut i: usize = 0;
                while i < children.len()
                    invariant
                        0 <= i <= children@.len(),
                        *self is HamtNode,
                        self->HamtNode_2 == *children,
                        copied@.len() == i,
                        forall|j: int| 0 <= j < i ==> same_ptr(#[trigger] children@[j], copied@[j]),
                    decreases children@.len() - i,
                {
                    let p = match &children[i] {
                        RecordPtr::InMemory(r) => {
                            proof {
                                let x = *self;
                                let c = x->HamtNode_2;
                                assert(c == *children);
                                assert(decreases_to!(x => c));
                                assert(decreases_to!(c => c@));
                                assert(decreases_to!(c@ => c@[i as int]));
                                assert(decreases_to!(c@[i as int] => c@[i as int]->InMemory_0));
                                assert(decreases_to!(x => **r));
                            }
                            RecordPtr::InMemory(Arc::new(r.owned_copy()))
                        },
                        RecordPtr::OnDisk(o) => RecordPtr::OnDisk(*o),
                    };
                    copied.push(p);
                    i = i + 1;
                }
                Record::HamtNode(*root, *bitmap, copied)
            },
        }
    }

    /// Fully owns the record: every value it borrows, itself or through its
    /// children in memory, is copied.
    pub fn into_owned(self) -> (r: Record<'static>)
        ensures
            same_record(self, r),
    {
        self.owned_copy()
    }
}

impl<'a> RecordPtr<'a> {
    /// Loads the record pointed to: a copy of the one in memory, or what
    /// `load_from_disk` gives for the disk offset.
    pub fn load<F: FnOnce(u64) -> Record<'a>>(&self, load_from_disk: F) -> (r: Record<'a>)
        requires
            *self matches RecordPtr::OnDisk(o) ==> load_from_disk.requires((o,)),
        ensures
            match *self {
                RecordPtr::InMemory(m) => same_record(*m, r),
                RecordPtr::OnDisk(o) => load_from_disk.ensures((o,), r),
            },
    {
        match self {
            Self::InMemory(m) => m.owned_copy(),
            Self::OnDisk(offset) => load_from_disk(*offset),
        }
    }
}

} // verus!
