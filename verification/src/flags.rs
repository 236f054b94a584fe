//! Permission flags: the closed set of rights (read, write, execute) that a
//! section or segment carries.

use vstd::prelude::*;
use vstd::std_specs::ops::BitOrSpecImpl;
use vstd::string::StringExecFns;

verus! {

/// The access rights a section or segment has once loaded in memory: a set
/// drawn from read, write and execute, stored as the low three bits of a byte.
#[derive(Clone, Copy, Debug, PartialEq, Eq)]
pub struct PermissionFlags {
    bits: u8,
}

impl View for PermissionFlags {
    type V = u8;

    /// The byte that stands for the set on the wire.
    closed spec fn view(&self) -> u8 {
        self.bits
    }
}

impl PermissionFlags {
    #[verifier::type_invariant]
    spec fn inv(self) -> bool {
        self.bits < 8
    }

    /// The set whose wire byte is `bits`.
    pub closed spec fn of_bits(bits: u8) -> PermissionFlags {
        PermissionFlags { bits }
    }

    /// Only the three known rights occur.
    pub open spec fn valid(self) -> bool {
        self@ < 8
    }

    /// The set holds the right to read.
    pub open spec fn readable(self) -> bool {
        self@ % 2 == 1
    }

    /// The set holds the right to write.
    pub open spec fn writable(self) -> bool {
        (self@ / 2) % 2 == 1
    }

    /// The set holds the right to execute.
    pub open spec fn executable(self) -> bool {
        (self@ / 4) % 2 == 1
    }

    /// Every right of `other` is also in `self`.
    pub open spec fn includes(self, other: PermissionFlags) -> bool {
        &&& other.readable() ==> self.readable()
        &&& other.writable() ==> self.writable()
        &&& other.executable() ==> self.executable()
    }

    /// The rights that are in `self` or in `rhs`.
    pub closed spec fn join(self, rhs: PermissionFlags) -> PermissionFlags {
        PermissionFlags { bits: self.bits | rhs.bits }
    }

    /// The three-column rendering: a letter for each right held, a blank for
    /// each right missing.
    pub open spec fn text(self) -> Seq<char> {
        seq![
            if self.readable() { 'R' } else { ' ' },
            if self.writable() { 'W' } else { ' ' },
            if self.executable() { 'X' } else { ' ' },
        ]
    }

    /// A set is known by its wire byte.
    pub proof fn lemma_of_bits(bits: u8)
        ensures
            Self::of_bits(bits)@ == bits,
    {
    }

    /// Two sets with the same wire byte are the same set.
    pub proof fn lemma_same(a: PermissionFlags, b: PermissionFlags)
        requires
            a@ == b@,
        ensures
            a == b,
    {
    }

    /// The union holds a right exactly when one of the two sets does.
    pub proof fn lemma_join(a: PermissionFlags, b: PermissionFlags)
        requires
            a.valid(),
            b.valid(),
        ensures
            a.join(b).valid(),
            a.join(b).readable() == (a.readable() || b.readable()),
            a.join(b).writable() == (a.writable() || b.writable()),
            a.join(b).executable() == (a.executable() || b.executable()),
    {
        let x = a.bits;
        let y = b.bits;
        assert(x < 8 && y < 8 ==> (x | y) < 8 && (((x | y) % 2 == 1) == (x % 2 == 1 || y % 2 == 1))
            && ((((x | y) / 2) % 2 == 1) == ((x / 2) % 2 == 1 || (y / 2) % 2 == 1)) && ((((x | y)
            / 4) % 2 == 1) == ((x / 4) % 2 == 1 || (y / 4) % 2 == 1))) by (bit_vector);
    }

    /// The right to read, alone.
    #[allow(non_snake_case)]
    pub fn R() -> (r: PermissionFlags)
        ensures
            r@ == 1,
    {
        PermissionFlags { bits: 1 }
    }

    /// The right to write, alone.
    #[allow(non_snake_case)]
    pub fn W() -> (r: PermissionFlags)
        ensures
            r@ == 2,
    {
        PermissionFlags { bits: 2 }
    }

    /// The right to execute, alone.
    #[allow(non_snake_case)]
    pub fn X() -> (r: PermissionFlags)
        ensures
            r@ == 4,
    {
        PermissionFlags { bits: 4 }
    }

    /// No right at all.
    pub fn empty() -> (r: PermissionFlags)
        ensures
            r@ == 0,
            r == Self::of_bits(0),
    {
        PermissionFlags { bits: 0 }
    }

    /// Every right.
    pub fn all() -> (r: PermissionFlags)
        ensures
            r@ == 7,
    {
        PermissionFlags { bits: 7 }
    }

    /// The wire byte of the set.
    pub fn bits(&self) -> (r: u8)
        ensures
            r == self@,
            self.valid(),
    {
        proof {
            use_type_invariant(self);
        }
        self.bits
    }

    /// The set that a wire byte stands for; bits that name no right are dropped.
    pub fn from_bits_truncate(raw: u8) -> (r: PermissionFlags)
        ensures
            r == Self::of_bits(raw % 8),
            r@ == raw % 8,
    {
        assert(raw & 7 == raw % 8) by (bit_vector);
        PermissionFlags { bits: raw & 7 }
    }

    /// Whether every right of `other` is held.
    pub fn contains(&self, other: PermissionFlags) -> (r: bool)
        ensures
            r == self.includes(other),
    {
        proof {
            use_type_invariant(self);
            use_type_invariant(other);
        }
        let x = self.bits;
        let y = other.bits;
        assert(x < 8 && y < 8 ==> ((x & y == y) <==> ((y % 2 == 1 ==> x % 2 == 1) && ((y / 2) % 2
            == 1 ==> (x / 2) % 2 == 1) && ((y / 4) % 2 == 1 ==> (x / 4) % 2 == 1))))
            by (bit_vector);
        x & y == y
    }

    /// The union of two sets.
    pub fn union(self, other: PermissionFlags) -> (r: PermissionFlags)
        ensures
            r == self.join(other),
            r.readable() == (self.readable() || other.readable()),
            r.writable() == (self.writable() || other.writable()),
            r.executable() == (self.executable() || other.executable()),
    {
        proof {
            use_type_invariant(self);
            use_type_invariant(other);
            Self::lemma_join(self, other);
        }
        PermissionFlags { bits: self.bits | other.bits }
    }

    /// Whether the right to read is held.
    pub fn is_readable(&self) -> (r: bool)
        ensures
            r == self.readable(),
    {
        self.bits % 2 == 1
    }

    /// Whether the right to write is held.
    pub fn is_writable(&self) -> (r: bool)
        ensures
            r == self.writable(),
    {
        (self.bits / 2) % 2 == 1
    }

    /// Whether the right to execute is held.
    pub fn is_executable(&self) -> (r: bool)
        ensures
            r == self.executable(),
    {
        (self.bits / 4) % 2 == 1
    }

    /// The set as three columns, `R`, `W` and `X`, with a blank for each
    /// right that is missing.
    pub fn to_string(&self) -> (r: String)
        ensures
            r@ == self.text(),
    {
        proof {
            reveal_strlit("R");
            reveal_strlit("W");
            reveal_strlit("X");
            reveal_strlit(" ");
        }
        let mut s = String::from_str(if self.is_readable() { "R" } else { " " });
        s.append(if self.is_writable() { "W" } else { " " });
        s.append(if self.is_executable() { "X" } else { " " });
        assert(s@ =~= self.text());
        s
    }
}

impl core::ops::BitOr for PermissionFlags {
    type Output = PermissionFlags;

    fn bitor(self, rhs: PermissionFlags) -> (r: PermissionFlags) {
        self.union(rhs)
    }
}

impl BitOrSpecImpl for PermissionFlags {
    open spec fn obeys_bitor_spec() -> bool {
        true
    }

    open spec fn bitor_req(self, rhs: PermissionFlags) -> bool {
        true
    }

    open spec fn bitor_spec(self, rhs: PermissionFlags) -> PermissionFlags {
        self.join(rhs)
    }
}

} // verus!
