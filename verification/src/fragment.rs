//! Fragments: the unit that arrives from the wire, identified by slot and index.

use vstd::prelude::*;

verus! {

/// Whether a fragment bears data or parity for erasure recovery.
#[derive(Clone, Copy, Debug, PartialEq, Eq, Structural)]
pub enum FragmentKind {
    Data,
    Coding,
}

/// Bit of the flag byte that marks the last data fragment of a window.
pub const TERMINAL_FLAG: u8 = 0x40;

/// Whether the flag byte `flags` has the terminal bit set.
pub open spec fn flags_terminal(flags: u8) -> bool {
    flags & TERMINAL_FLAG == TERMINAL_FLAG
}

/// What a fragment is, as a mathematical value.
pub struct FragmentView {
    pub slot: u64,
    pub index: u32,
    pub kind: FragmentKind,
    pub flags: u8,
    pub payload: Seq<u8>,
}

impl FragmentView {
    /// Whether the fragment carries the terminal marker.
    pub open spec fn is_terminal(self) -> bool {
        flags_terminal(self.flags)
    }
}

/// One fragment of a slot. Its fields are fixed when it is made.
#[derive(Debug)]
pub struct Fragment {
    slot: u64,
    index: u32,
    kind: FragmentKind,
    flags: u8,
    payload: Vec<u8>,
}

impl View for Fragment {
    type V = FragmentView;

    closed spec fn view(&self) -> FragmentView {
        FragmentView {
            slot: self.slot,
            index: self.index,
            kind: self.kind,
            flags: self.flags,
            payload: self.payload@,
        }
    }
}

/// Copies a byte vector element by element.
pub fn copy_bytes(bytes: &Vec<u8>) -> (r: Vec<u8>)
    ensures
        r@ == bytes@,
{
    let mut out: Vec<u8> = Vec::with_capacity(bytes.len());
    let mut i: usize = 0;
    while i < bytes.len()
        invariant
            i <= bytes.len(),
            out@ == bytes@.take(i as int),
        decreases bytes.len() - i,
    {
        out.push(bytes[i]);
        assert(bytes@.take(i + 1) =~= bytes@.take(i as int).push(bytes@[i as int]));
        i += 1;
    }
    assert(bytes@.take(bytes@.len() as int) =~= bytes@);
    out
}

/// Whether two byte vectors hold the same bytes.
pub fn bytes_equal(a: &Vec<u8>, b: &Vec<u8>) -> (r: bool)
    ensures
        r == (a@ == b@),
{
    if a.len() != b.len() {
        return false;
    }
    let mut i: usize = 0;
    while i < a.len()
        invariant
            i <= a.len(),
            a.len() == b.len(),
            forall|k: int| 0 <= k < i ==> a@[k] == b@[k],
        decreases a.len() - i,
    {
        if a[i] != b[i] {
            return false;
        }
        i += 1;
    }
    assert(a@ =~= b@);
    true
}

impl Fragment {
    /// Makes the fragment `(slot, index)` with the given kind, flag byte and payload.
    pub fn new(slot: u64, index: u32, kind: FragmentKind, flags: u8, payload: Vec<u8>) -> (f:
        Fragment)
        ensures
            f@ == (FragmentView { slot, index, kind, flags, payload: payload@ }),
    {
        Fragment { slot, index, kind, flags, payload }
    }

    /// The slot that the fragment belongs to.
    pub fn slot(&self) -> (r: u64)
        ensures
            r == self@.slot,
    {
        self.slot
    }

    /// The fragment's position within its slot.
    pub fn index(&self) -> (r: u32)
        ensures
            r == self@.index,
    {
        self.index
    }

    /// Data or coding.
    pub fn kind(&self) -> (r: FragmentKind)
        ensures
            r == self@.kind,
    {
        self.kind
    }

    /// The flag byte.
    pub fn flags(&self) -> (r: u8)
        ensures
            r == self@.flags,
    {
        self.flags
    }

    /// The payload bytes.
    pub fn payload(&self) -> (r: &Vec<u8>)
        ensures
            r@ == self@.payload,
    {
        &self.payload
    }

    /// Whether the fragment carries the terminal marker.
    pub fn is_terminal(&self) -> (r: bool)
        ensures
            r == self@.is_terminal(),
    {
        self.flags & TERMINAL_FLAG == TERMINAL_FLAG
    }

    /// Whether the fragment bears data.
    pub fn is_data(&self) -> (r: bool)
        ensures
            r == (self@.kind == FragmentKind::Data),
    {
        match self.kind {
            FragmentKind::Data => true,
            FragmentKind::Coding => false,
        }
    }

    /// Whether `self` and `other` are the same fragment, field by field.
    pub fn same_as(&self, other: &Fragment) -> (r: bool)
        ensures
            r == (self@ == other@),
    {
        let same_kind = match (self.kind, other.kind) {
            (FragmentKind::Data, FragmentKind::Data) => true,
            (FragmentKind::Coding, FragmentKind::Coding) => true,
            _ => false,
        };
        self.slot == other.slot && self.index == other.index && same_kind && self.flags
            == other.flags && bytes_equal(&self.payload, &other.payload)
    }
}

impl Clone for Fragment {
    fn clone(&self) -> (r: Fragment)
        ensures
            r@ == self@,
    {
        Fragment {
            slot: self.slot,
            index: self.index,
            kind: self.kind,
            flags: self.flags,
            payload: copy_bytes(&self.payload),
        }
    }
}

} // verus!
