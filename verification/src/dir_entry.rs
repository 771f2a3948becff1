//! Directory entries: a name of at most 27 bytes, padded with zeros to 28, and
//! the number of the inode it names.

use crate::codec::{
    le_u32, lemma_word_of_bytes, splice, u32_byte, u32_byte_at, u32_from_bytes,
};
use vstd::prelude::*;
use vstd::string::StringSliceAdditionalSpecFns;

verus! {

broadcast use {vstd::slice::group_slice_axioms, vstd::array::group_array_axioms};

/// Index of the first zero byte of `field` at or after `i`, or the length of
/// `field` if there is none.
pub open spec fn nul_from(field: Seq<u8>, i: int) -> int
    decreases field.len() - i,
{
    if i < 0 || i >= field.len() || field[i] == 0 {
        i
    } else {
        nul_from(field, i + 1)
    }
}

/// The name that a name field holds: the bytes before its first zero byte.
pub open spec fn name_of(field: Seq<u8>) -> Seq<u8> {
    field.subrange(0, nul_from(field, 0))
}

/// What `nul_from` finds: no zero byte lies before it, and it is a zero byte
/// or the end.
pub proof fn lemma_nul_from(field: Seq<u8>, i: int)
    requires
        0 <= i <= field.len(),
    ensures
        i <= nul_from(field, i) <= field.len(),
        forall|j: int| i <= j < nul_from(field, i) ==> field[j] != 0,
        nul_from(field, i) < field.len() ==> field[nul_from(field, i)] == 0,
    decreases field.len() - i,
{
    if i < field.len() && field[i] != 0 {
        lemma_nul_from(field, i + 1);
    }
}

/// The first zero byte is where no earlier byte is zero.
pub proof fn lemma_nul_is(field: Seq<u8>, n: int)
    requires
        0 <= n <= field.len(),
        forall|j: int| 0 <= j < n ==> field[j] != 0,
        n < field.len() ==> field[n] == 0,
    ensures
        nul_from(field, 0) == n,
{
    lemma_nul_from(field, 0);
    let m = nul_from(field, 0);
    if m < n {
        assert(field[m] != 0);
    } else if n < m {
        assert(field[n] != 0);
    }
}

/// An entry as the directory's users see it.
pub struct DirEntryView {
    pub name: Seq<u8>,
    pub inode_number: u32,
}

/// The entry that 32 bytes stand for.
pub open spec fn entry_of(bytes: Seq<u8>) -> DirEntryView {
    DirEntryView { name: name_of(bytes.subrange(0, 28)), inode_number: le_u32(bytes, 28) }
}

/// Entry `i` of a directory with the given content.
pub open spec fn entry_at(content: Seq<u8>, i: int) -> DirEntryView {
    entry_of(content.subrange(32 * i, 32 * i + 32))
}

/// The entries of a directory with the given content, in on-disk order.
pub open spec fn dir_entries(content: Seq<u8>) -> Seq<DirEntryView> {
    Seq::new((content.len() / 32) as nat, |i: int| entry_at(content, i))
}

/// The name field that stores `name`: the name, then zeros up to 28 bytes.
pub open spec fn name_field(name: Seq<u8>) -> Seq<u8> {
    Seq::new(
        28,
        |i: int|
            if i < name.len() {
                name[i]
            } else {
                0u8
            },
    )
}

/// A directory entry as stored.
#[derive(Clone, Copy, Debug)]
pub struct DirEntry {
    pub name: [u8; 28],
    pub inode_number: u32,
}

impl View for DirEntry {
    type V = DirEntryView;

    open spec fn view(&self) -> DirEntryView {
        DirEntryView { name: name_of(self.name@), inode_number: self.inode_number }
    }
}

impl DirEntry {
    /// The 32 bytes of the entry: the name field, then the inode number as a
    /// little-endian word.
    pub open spec fn spec_bytes(&self) -> Seq<u8> {
        Seq::new(
            32,
            |i: int|
                if i < 28 {
                    self.name@[i]
                } else {
                    u32_byte(self.inode_number, i - 28)
                },
        )
    }

    /// Decoding the stored bytes gives the entry.
    pub proof fn lemma_entry_of_bytes(&self)
        ensures
            entry_of(self.spec_bytes()) == self@,
            self.spec_bytes().len() == 32,
    {
        let b = self.spec_bytes();
        assert(b.subrange(0, 28) =~= self.name@);
        lemma_word_of_bytes(b, 28, self.inode_number);
    }

    /// A name of at most 27 bytes is stored up to its first zero byte.
    pub proof fn lemma_name_field(name: Seq<u8>)
        requires
            name.len() <= 27,
        ensures
            name_of(name_field(name)) == name_of(name),
            (forall|j: int| 0 <= j < name.len() ==> name[j] != 0) ==> name_of(name) == name,
    {
        let f = name_field(name);
        lemma_nul_from(name, 0);
        let n = nul_from(name, 0);
        assert forall|j: int| 0 <= j < n implies f[j] != 0 by {
            assert(name[j] != 0);
        }
        lemma_nul_is(f, n);
        assert(name_of(f) =~= name_of(name));
        if forall|j: int| 0 <= j < name.len() ==> name[j] != 0 {
            lemma_nul_is(name, name.len() as int);
            assert(name_of(name) =~= name);
        }
    }

    /// The entry of all zeros: an empty name and inode number 0.
    pub fn empty() -> (e: DirEntry)
        ensures
            e.inode_number == 0,
            forall|i: int| 0 <= i < 28 ==> e.name@[i] == 0,
            e.spec_bytes() == Seq::new(32, |i: int| 0u8),
    {
        let e = DirEntry { name: [0u8; 28], inode_number: 0 };
        assert(e.spec_bytes() =~= Seq::new(32, |i: int| 0u8));
        e
    }

    /// An entry that names inode `inode_number` as `name`.
    pub fn new(name: &str, inode_number: u32) -> (e: DirEntry)
        requires
            name.spec_bytes().len() <= 27,
        ensures
            e.inode_number == inode_number,
            e.name@ == name_field(name.spec_bytes()),
            e@.name == name_of(name.spec_bytes()),
    {
        let src = name.as_bytes();
        let mut field = [0u8; 28];
        let mut i: usize = 0;
        while i < src.len()
            invariant
                i <= src.len() <= 27,
                src@ == name.spec_bytes(),
                forall|j: int| 0 <= j < i ==> field@[j] == src@[j],
                forall|j: int| i <= j < 28 ==> field@[j] == 0,
            decreases src.len() - i,
        {
            field[i] = src[i];
            i += 1;
        }
        proof {
            assert(field@ =~= name_field(name.spec_bytes()));
            Self::lemma_name_field(name.spec_bytes());
        }
        DirEntry { name: field, inode_number }
    }

    /// The entry that 32 bytes stand for.
    pub fn from_bytes(bytes: &[u8; 32]) -> (e: DirEntry)
        ensures
            e.spec_bytes() == bytes@,
            e@ == entry_of(bytes@),
    {
        let mut name = [0u8; 28];
        let mut i: usize = 0;
        while i < 28
            invariant
                i <= 28,
                forall|j: int| 0 <= j < i ==> name@[j] == bytes@[j],
            decreases 28 - i,
        {
            name[i] = bytes[i];
            i += 1;
        }
        let inode_number = u32_from_bytes(bytes[28], bytes[29], bytes[30], bytes[31]);
        let e = DirEntry { name, inode_number };
        proof {
            assert(bytes@.subrange(0, 28) =~= name@);
            assert(le_u32(bytes@, 28) == inode_number);
            assert forall|k: int| 0 <= k < 4 implies u32_byte(inode_number, k) == bytes@[28 + k] by {
                crate::codec::lemma_bytes_of_word(bytes@, 28);
            }
            assert(e.spec_bytes() =~= bytes@);
        }
        e
    }

    /// The 32 bytes of the entry.
    pub fn to_bytes(&self) -> (bytes: [u8; 32])
        ensures
            bytes@ == self.spec_bytes(),
    {
        let mut bytes = [0u8; 32];
        let mut i: usize = 0;
        while i < 28
            invariant
                i <= 28,
                forall|j: int| 0 <= j < i ==> bytes@[j] == self.name@[j],
            decreases 28 - i,
        {
            bytes[i] = self.name[i];
            i += 1;
        }
        bytes[28] = u32_byte_at(self.inode_number, 0);
        bytes[29] = u32_byte_at(self.inode_number, 1);
        bytes[30] = u32_byte_at(self.inode_number, 2);
        bytes[31] = u32_byte_at(self.inode_number, 3);
        assert(bytes@ =~= self.spec_bytes());
        bytes
    }

    /// Number of bytes of the name.
    pub fn name_len(&self) -> (n: usize)
        ensures
            n == self@.name.len(),
            n <= 28,
            self@.name == self.name@.subrange(0, n as int),
    {
        let mut i: usize = 0;
        while i < 28 && self.name[i] != 0
            invariant
                i <= 28,
                forall|j: int| 0 <= j < i ==> self.name@[j] != 0,
            decreases 28 - i,
        {
            i += 1;
        }
        proof {
            lemma_nul_is(self.name@, i as int);
        }
        i
    }

    /// Whether the entry's name is `name`, byte for byte.
    pub fn name_is(&self, name: &[u8]) -> (r: bool)
        ensures
            r == (self@.name == name@),
    {
        let n = self.name_len();
        if name.len() != n {
            return false;
        }
        let mut i: usize = 0;
        while i < n
            invariant
                i <= n <= 28,
                n == name.len(),
                self@.name == self.name@.subrange(0, n as int),
                forall|j: int| 0 <= j < i ==> self.name@[j] == name@[j],
            decreases n - i,
        {
            if self.name[i] != name[i] {
                assert(self@.name[i as int] != name@[i as int]);
                return false;
            }
            i += 1;
        }
        assert(self@.name =~= name@);
        true
    }

    /// The inode that the entry names.
    pub fn inode_number(&self) -> (n: u32)
        ensures
            n == self@.inode_number,
    {
        self.inode_number
    }
}

/// A directory whose content grew by one entry has that entry at its end and
/// the others as before.
pub proof fn lemma_entries_push(c0: Seq<u8>, c1: Seq<u8>, e: DirEntryView)
    requires
        c0.len() % 32 == 0,
        c1.len() == c0.len() + 32,
        c1.subrange(0, c0.len() as int) == c0,
        entry_of(c1.subrange(c0.len() as int, c0.len() as int + 32)) == e,
    ensures
        dir_entries(c1) == dir_entries(c0).push(e),
{
    let want = dir_entries(c0).push(e);
    assert(dir_entries(c1).len() == want.len());
    assert forall|i: int| 0 <= i < want.len() implies dir_entries(c1)[i] == want[i] by {
        if i < dir_entries(c0).len() {
            assert(c1.subrange(32 * i, 32 * i + 32) =~= c0.subrange(32 * i, 32 * i + 32)) by {
                assert forall|y: int| 32 * i <= y < 32 * i + 32 implies #[trigger] c1[y] == c0[y] by {
                    assert(c1.subrange(0, c0.len() as int)[y] == c0[y]);
                }
            }
        } else {
            assert(32 * i == c0.len());
        }
    }
    assert(dir_entries(c1) =~= want);
}

/// A directory in which the last entry was copied over entry `at` and which
/// was then shortened by one entry has lost entry `at` and keeps the others,
/// the last one in the place of the removed one.
pub proof fn lemma_entries_swap_removed(c0: Seq<u8>, c1: Seq<u8>, at: int)
    requires
        c0.len() % 32 == 0,
        0 <= at < c0.len() / 32,
        c1.len() == c0.len() - 32,
        forall|y: int|
            0 <= y < c1.len() ==> #[trigger] c1[y] == if 32 * at <= y < 32 * at + 32 {
                c0[c0.len() - 32 + (y - 32 * at)]
            } else {
                c0[y]
            },
    ensures
        dir_entries(c1) == dir_entries(c0).update(at, dir_entries(c0).last()).drop_last(),
{
    let n = c0.len() / 32;
    let e0 = dir_entries(c0);
    let want = e0.update(at, e0.last()).drop_last();
    assert(dir_entries(c1).len() == want.len());
    assert forall|i: int| 0 <= i < want.len() implies dir_entries(c1)[i] == want[i] by {
        if i == at {
            assert(c1.subrange(32 * i, 32 * i + 32) =~= c0.subrange(32 * (n - 1), 32 * (n - 1) + 32));
        } else {
            assert(c1.subrange(32 * i, 32 * i + 32) =~= c0.subrange(32 * i, 32 * i + 32));
        }
    }
    assert(dir_entries(c1) =~= want);
}

/// The content of a directory while an entry is removed: the last entry is
/// copied over entry `at` (`c1`), the last slot is filled with zeros (`c2`),
/// and the directory is shortened by one entry (`c3`).
pub proof fn lemma_removal(
    c0: Seq<u8>,
    c1: Seq<u8>,
    c2: Seq<u8>,
    c3: Seq<u8>,
    at: int,
    last: Seq<u8>,
    zeros: Seq<u8>,
)
    requires
        c0.len() % 32 == 0,
        0 <= at < c0.len() / 32,
        last == c0.subrange(c0.len() - 32, c0.len() as int),
        zeros == Seq::new(32, |i: int| 0u8),
        c1 == splice(c0, 32 * at, last, 0, 32),
        c2 == splice(c1, c0.len() - 32, zeros, 0, 32),
        c3 == c2.subrange(0, c0.len() - 32),
    ensures
        dir_entries(c3) == dir_entries(c0).update(at, dir_entries(c0).last()).drop_last(),
        forall|i: int| c0.len() - 32 <= i < c0.len() ==> c2[i] == 0u8,
{
    assert forall|y: int| 0 <= y < c3.len() implies #[trigger] c3[y] == if 32 * at <= y < 32 * at
        + 32 {
        c0[c0.len() - 32 + (y - 32 * at)]
    } else {
        c0[y]
    } by {
        assert(c2[y] == c1[y]);
        if 32 * at <= y < 32 * at + 32 {
            assert(c1[y] == last[y - 32 * at]);
        }
    }
    lemma_entries_swap_removed(c0, c3, at);
}

} // verus!
