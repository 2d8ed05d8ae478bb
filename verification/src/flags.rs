//! The permission flags of a page-table entry.
//!
//! The flags are written as in the Sv39 format: bit 0 is `V`, then `R`, `W`,
//! `X`, `U`, `G`, `A` and `D`; bit 8, one of the two that the hardware leaves
//! to software, marks a frame that the address space owns and must free.

use vstd::prelude::*;
use vstd::string::*;

verus! {

pub const VALID_BIT: usize = 1;

pub const READABLE_BIT: usize = 2;

pub const WRITABLE_BIT: usize = 4;

pub const EXECUTABLE_BIT: usize = 8;

pub const USER_BIT: usize = 16;

pub const GLOBAL_BIT: usize = 32;

pub const ACCESSED_BIT: usize = 64;

pub const DIRTY_BIT: usize = 128;

pub const OWNED_BIT: usize = 256;

/// One more than the largest value that flags can have.
pub const FLAGS_LIMIT: usize = 512;

/// The flags of one page-table entry.
#[derive(Clone, Copy, PartialEq, Eq, Structural, Debug)]
pub struct VmFlags {
    pub valid: bool,
    pub readable: bool,
    pub writable: bool,
    pub executable: bool,
    pub user: bool,
    pub global: bool,
    pub accessed: bool,
    pub dirty: bool,
    pub owned: bool,
}

pub open spec fn bit(b: bool, weight: usize) -> int {
    if b {
        weight as int
    } else {
        0
    }
}

impl VmFlags {
    pub open spec fn zero() -> VmFlags {
        VmFlags {
            valid: false,
            readable: false,
            writable: false,
            executable: false,
            user: false,
            global: false,
            accessed: false,
            dirty: false,
            owned: false,
        }
    }

    /// The flags as a number.
    pub open spec fn bits(self) -> int {
        bit(self.valid, VALID_BIT) + bit(self.readable, READABLE_BIT) + bit(
            self.writable,
            WRITABLE_BIT,
        ) + bit(self.executable, EXECUTABLE_BIT) + bit(self.user, USER_BIT) + bit(
            self.global,
            GLOBAL_BIT,
        ) + bit(self.accessed, ACCESSED_BIT) + bit(self.dirty, DIRTY_BIT) + bit(
            self.owned,
            OWNED_BIT,
        )
    }

    /// The flags that the number `raw` stands for; bits from the tenth on are dropped.
    pub open spec fn of_bits(raw: int) -> VmFlags {
        VmFlags {
            valid: raw % 2 == 1,
            readable: raw / 2 % 2 == 1,
            writable: raw / 4 % 2 == 1,
            executable: raw / 8 % 2 == 1,
            user: raw / 16 % 2 == 1,
            global: raw / 32 % 2 == 1,
            accessed: raw / 64 % 2 == 1,
            dirty: raw / 128 % 2 == 1,
            owned: raw / 256 % 2 == 1,
        }
    }

    /// Whether every flag of `other` is set in `self`.
    pub open spec fn has_all(self, other: VmFlags) -> bool {
        &&& other.valid ==> self.valid
        &&& other.readable ==> self.readable
        &&& other.writable ==> self.writable
        &&& other.executable ==> self.executable
        &&& other.user ==> self.user
        &&& other.global ==> self.global
        &&& other.accessed ==> self.accessed
        &&& other.dirty ==> self.dirty
        &&& other.owned ==> self.owned
    }

    /// The flags that are set in `self` or in `other`.
    pub open spec fn or(self, other: VmFlags) -> VmFlags {
        VmFlags {
            valid: self.valid || other.valid,
            readable: self.readable || other.readable,
            writable: self.writable || other.writable,
            executable: self.executable || other.executable,
            user: self.user || other.user,
            global: self.global || other.global,
            accessed: self.accessed || other.accessed,
            dirty: self.dirty || other.dirty,
            owned: self.owned || other.owned,
        }
    }

    /// The flags with the one that the letter `c` names set as well.  Upper
    /// and lower case name the same flag; any other character names none.
    pub open spec fn with_letter(self, c: char) -> VmFlags {
        if c == 'V' || c == 'v' {
            VmFlags { valid: true, ..self }
        } else if c == 'R' || c == 'r' {
            VmFlags { readable: true, ..self }
        } else if c == 'W' || c == 'w' {
            VmFlags { writable: true, ..self }
        } else if c == 'X' || c == 'x' {
            VmFlags { executable: true, ..self }
        } else if c == 'U' || c == 'u' {
            VmFlags { user: true, ..self }
        } else if c == 'G' || c == 'g' {
            VmFlags { global: true, ..self }
        } else if c == 'A' || c == 'a' {
            VmFlags { accessed: true, ..self }
        } else if c == 'D' || c == 'd' {
            VmFlags { dirty: true, ..self }
        } else {
            self
        }
    }

    /// The flags that the letters of `s` name.
    pub open spec fn of_letters(s: Seq<char>) -> VmFlags
        decreases s.len(),
    {
        if s.len() == 0 {
            VmFlags::zero()
        } else {
            VmFlags::of_letters(s.drop_last()).with_letter(s.last())
        }
    }

    /// No flag set.
    pub fn empty() -> (f: Self)
        ensures
            f == VmFlags::zero(),
    {
        VmFlags {
            valid: false,
            readable: false,
            writable: false,
            executable: false,
            user: false,
            global: false,
            accessed: false,
            dirty: false,
            owned: false,
        }
    }

    /// The flags of the number `raw`.
    pub fn from_raw(raw: usize) -> (f: Self)
        ensures
            f == VmFlags::of_bits(raw as int),
    {
        VmFlags {
            valid: raw % 2 == 1,
            readable: raw / 2 % 2 == 1,
            writable: raw / 4 % 2 == 1,
            executable: raw / 8 % 2 == 1,
            user: raw / 16 % 2 == 1,
            global: raw / 32 % 2 == 1,
            accessed: raw / 64 % 2 == 1,
            dirty: raw / 128 % 2 == 1,
            owned: raw / 256 % 2 == 1,
        }
    }

    /// The flags as a number.
    pub fn val(self) -> (raw: usize)
        ensures
            raw == self.bits(),
            raw < FLAGS_LIMIT,
    {
        let mut raw: usize = 0;
        if self.valid {
            raw = raw + VALID_BIT;
        }
        if self.readable {
            raw = raw + READABLE_BIT;
        }
        if self.writable {
            raw = raw + WRITABLE_BIT;
        }
        if self.executable {
            raw = raw + EXECUTABLE_BIT;
        }
        if self.user {
            raw = raw + USER_BIT;
        }
        if self.global {
            raw = raw + GLOBAL_BIT;
        }
        if self.accessed {
            raw = raw + ACCESSED_BIT;
        }
        if self.dirty {
            raw = raw + DIRTY_BIT;
        }
        if self.owned {
            raw = raw + OWNED_BIT;
        }
        raw
    }

    /// Whether every flag of `flags` is set in `self`.
    pub fn contains(self, flags: VmFlags) -> (b: bool)
        ensures
            b == self.has_all(flags),
    {
        (!flags.valid || self.valid) && (!flags.readable || self.readable) && (!flags.writable
            || self.writable) && (!flags.executable || self.executable) && (!flags.user
            || self.user) && (!flags.global || self.global) && (!flags.accessed || self.accessed)
            && (!flags.dirty || self.dirty) && (!flags.owned || self.owned)
    }

    /// The flags that are set in `self` or in `other`.
    pub fn union(self, other: VmFlags) -> (f: VmFlags)
        ensures
            f == self.or(other),
    {
        VmFlags {
            valid: self.valid || other.valid,
            readable: self.readable || other.readable,
            writable: self.writable || other.writable,
            executable: self.executable || other.executable,
            user: self.user || other.user,
            global: self.global || other.global,
            accessed: self.accessed || other.accessed,
            dirty: self.dirty || other.dirty,
            owned: self.owned || other.owned,
        }
    }

    /// Whether the entry is in use.
    pub fn valid(self) -> (b: bool)
        ensures
            b == self.valid,
    {
        self.valid
    }

    /// Whether an entry with these flags maps a page, rather than pointing to
    /// a table of the next level: one of `R`, `W` and `X` is set.
    pub fn is_leaf(self) -> (b: bool)
        ensures
            b == (self.readable || self.writable || self.executable),
    {
        self.readable || self.writable || self.executable
    }

    fn add_letter(self, c: char) -> (f: VmFlags)
        ensures
            f == self.with_letter(c),
    {
        let mut f = self;
        if c == 'V' || c == 'v' {
            f.valid = true;
        } else if c == 'R' || c == 'r' {
            f.readable = true;
        } else if c == 'W' || c == 'w' {
            f.writable = true;
        } else if c == 'X' || c == 'x' {
            f.executable = true;
        } else if c == 'U' || c == 'u' {
            f.user = true;
        } else if c == 'G' || c == 'g' {
            f.global = true;
        } else if c == 'A' || c == 'a' {
            f.accessed = true;
        } else if c == 'D' || c == 'd' {
            f.dirty = true;
        }
        f
    }
}

/// The flags that a string such as `"U_WRV"` names: each of the letters `V`,
/// `R`, `W`, `X`, `U`, `G`, `A` and `D`, in either case, sets its flag, and
/// every other character only fills a place.
pub fn build_flags(s: &str) -> (f: VmFlags)
    ensures
        f == VmFlags::of_letters(s@),
        !f.owned,
{
    let n = s.unicode_len();
    let mut f = VmFlags::empty();
    let mut i: usize = 0;
    while i < n
        invariant
            i <= n,
            n == s@.len(),
            f == VmFlags::of_letters(s@.subrange(0, i as int)),
            !f.owned,
        decreases n - i,
    {
        let c = s.get_char(i);
        f = f.add_letter(c);
        proof {
            assert(s@.subrange(0, i + 1).drop_last() =~= s@.subrange(0, i as int));
        }
        i = i + 1;
    }
    proof {
        assert(s@.subrange(0, n as int) =~= s@);
    }
    f
}

/// The same reading of a string of flags, for a string that is not known
/// beforehand.  Every string names some flags, so the result is always `Ok`.
pub fn parse_flags(s: &str) -> (r: Result<VmFlags, ()>)
    ensures
        r == Ok::<VmFlags, ()>(VmFlags::of_letters(s@)),
{
    Ok(build_flags(s))
}

/// Reading the number of some flags gives the same flags again.
pub proof fn lemma_bits_round_trip(f: VmFlags)
    ensures
        VmFlags::of_bits(f.bits()) == f,
{
    let q8 = bit(f.owned, 1);
    let q7 = bit(f.dirty, 1) + 2 * q8;
    let q6 = bit(f.accessed, 1) + 2 * q7;
    let q5 = bit(f.global, 1) + 2 * q6;
    let q4 = bit(f.user, 1) + 2 * q5;
    let q3 = bit(f.executable, 1) + 2 * q4;
    let q2 = bit(f.writable, 1) + 2 * q3;
    let q1 = bit(f.readable, 1) + 2 * q2;
    let q0 = bit(f.valid, 1) + 2 * q1;
    assert(f.bits() == q0);
    assert(q0 / 2 == q1 && q0 % 2 == bit(f.valid, 1));
    assert(q1 / 2 == q2 && q1 % 2 == bit(f.readable, 1));
    assert(q2 / 2 == q3 && q2 % 2 == bit(f.writable, 1));
    assert(q3 / 2 == q4 && q3 % 2 == bit(f.executable, 1));
    assert(q4 / 2 == q5 && q4 % 2 == bit(f.user, 1));
    assert(q5 / 2 == q6 && q5 % 2 == bit(f.global, 1));
    assert(q6 / 2 == q7 && q6 % 2 == bit(f.accessed, 1));
    assert(q7 / 2 == q8 && q7 % 2 == bit(f.dirty, 1));
    assert(q0 / 4 == q2);
    assert(q0 / 8 == q3);
    assert(q0 / 16 == q4);
    assert(q0 / 32 == q5);
    assert(q0 / 64 == q6);
    assert(q0 / 128 == q7);
    assert(q0 / 256 == q8);
}

/// Flags that ask for a readable page, `V` and `R`, obtain only pages whose
/// readable flag is set; flags that ask for a writable page, `V` and `W`, only
/// pages whose writable flag is set.
pub proof fn lemma_required_access(page: VmFlags, required: VmFlags)
    requires
        page.has_all(required),
    ensures
        required.valid ==> page.valid,
        required.readable ==> page.readable,
        required.writable ==> page.writable,
{
}

} // verus!
