//! Registers `a` to `z`, each holding a string.

use vstd::prelude::*;
use crate::text::str_to_chars;

verus! {

/// The register of a char key: the char's low byte must be `a` to `z`.
pub open spec fn key_of_char(key: char) -> Option<u8> {
    let b = (key as u32 % 256) as u8;
    if 97 <= b <= 122 {
        Some((b - 97) as u8)
    } else {
        None
    }
}

/// One of the 26 registers.
#[derive(Clone, Copy, PartialEq, Eq, Structural)]
pub struct RegisterKey(u8);

impl RegisterKey {
    /// Index of the register, 0 for `a` up to 25 for `z`.
    pub closed spec fn index(self) -> int {
        self.0 as int
    }

    #[verifier::type_invariant]
    spec fn inv(self) -> bool {
        self.0 < 26
    }

    /// The key of a char: `a` to `z` (compared on the char's low byte).
    pub fn from_char(key: char) -> (r: Option<RegisterKey>)
        ensures
            r is None <==> key_of_char(key) is None,
            r is Some ==> r.unwrap().index() == key_of_char(key).unwrap(),
    {
        let v = key as u32;
        let b = #[verifier::truncate] (v as u8);
        assert(b == (v % 256) as u8) by (bit_vector)
            requires
                b == v as u8,
        ;
        if b >= 97 && b <= 122 {
            Some(Self(b - 97))
        } else {
            None
        }
    }

    /// The key named by a one char string `a` to `z`.
    pub fn from_str(key: &str) -> (r: Option<RegisterKey>)
        ensures
            r is Some <==> key@.len() == 1 && (key@[0] as u32) < 128 && key_of_char(key@[0]) is Some,
            r is Some ==> r.unwrap().index() == key_of_char(key@[0]).unwrap(),
    {
        let chars = str_to_chars(key);
        if chars.len() == 1 && (chars[0] as u32) < 128 {
            Self::from_char(chars[0])
        } else {
            None
        }
    }

    /// The key's letter as an ASCII byte.
    pub fn as_u8(&self) -> (r: u8)
        ensures
            r == self.index() + 97,
    {
        proof {
            use_type_invariant(self);
        }
        self.0 + 97
    }

    fn as_index(&self) -> (r: usize)
        ensures
            r == self.index(),
            r < 26,
    {
        proof {
            use_type_invariant(self);
        }
        self.0 as usize
    }
}

/// The register searches go to.
pub fn search_register() -> (r: RegisterKey)
    ensures
        r.index() == 18,
{
    RegisterKey(18)
}

/// The register the last macro is recorded in.
pub fn auto_macro_register() -> (r: RegisterKey)
    ensures
        r.index() == 0,
{
    RegisterKey(0)
}

/// The register command results go to.
pub fn return_register() -> (r: RegisterKey)
    ensures
        r.index() == 25,
{
    RegisterKey(25)
}

pub const REGISTERS_LEN: usize = 26;

/// The contents of the 26 registers.
pub struct RegisterCollection {
    registers: Vec<String>,
}

impl RegisterCollection {
    /// Contents of each register.
    pub closed spec fn view(&self) -> Seq<Seq<char>> {
        self.registers@.map_values(|s: String| s@)
    }

    pub closed spec fn wf(&self) -> bool {
        self.registers.len() == REGISTERS_LEN
    }

    /// A well-formed collection holds the 26 registers.
    pub proof fn lemma_wf_len(&self)
        requires
            self.wf(),
        ensures
            self.view().len() == 26,
    {
    }

    /// All registers empty.
    pub fn new() -> (r: Self)
        ensures
            r.wf(),
            r.view() == Seq::new(26, |i: int| Seq::<char>::empty()),
    {
        let mut registers: Vec<String> = Vec::new();
        let mut i: usize = 0;
        while i < REGISTERS_LEN
            invariant
                i <= REGISTERS_LEN,
                registers.len() == i,
                forall|j: int| 0 <= j < i ==> (#[trigger] registers@[j])@ == Seq::<char>::empty(),
            decreases REGISTERS_LEN - i,
        {
            registers.push(String::new());
            i = i + 1;
        }
        let r = Self { registers };
        assert(r.view() =~= Seq::new(26, |i: int| Seq::<char>::empty()));
        r
    }

    pub fn get(&self, key: RegisterKey) -> (r: &str)
        requires
            self.wf(),
        ensures
            r@ == self.view()[key.index()],
            0 <= key.index() < 26,
            self.view().len() == 26,
    {
        self.registers[key.as_index()].as_str()
    }

    pub fn get_mut(&mut self, key: RegisterKey) -> (r: &mut String)
        requires
            old(self).wf(),
        ensures
            r@ == old(self).view()[key.index()],
            0 <= key.index() < 26,
            old(self).view().len() == 26,
            final(self).wf(),
            final(self).view() == old(self).view().update(key.index(), final(r)@),
    {
        let i = key.as_index();
        &mut self.registers[i]
    }

    /// Replaces the contents of a register.
    pub fn set(&mut self, key: RegisterKey, value: &str)
        requires
            old(self).wf(),
        ensures
            final(self).wf(),
            0 <= key.index() < 26,
            final(self).view().len() == 26,
            final(self).view() == old(self).view().update(key.index(), value@),
    {
        let i = key.as_index();
        self.registers.set(i, value.to_string());
        assert(self.view() =~= old(self).view().update(key.index(), value@));
    }

    /// Copies the contents of register `from` into register `to`.
    pub fn copy(&mut self, from: RegisterKey, to: RegisterKey)
        requires
            old(self).wf(),
        ensures
            final(self).wf(),
            0 <= from.index() < 26,
            0 <= to.index() < 26,
            final(self).view().len() == 26,
            final(self).view() == old(self).view().update(to.index(), old(self).view()[from.index()]),
    {
        let from_index = from.as_index();
        let to_index = to.as_index();
        if from_index == to_index {
            assert(self.view() =~= old(self).view().update(to.index(), old(self).view()[from.index()]));
            return;
        }
        let text = self.registers[from_index].clone();
        self.registers.set(to_index, text);
        assert(self.view() =~= old(self).view().update(to.index(), old(self).view()[from.index()]));
    }
}

/// A register holds what was last set into it, and setting one register
/// leaves the others as they were.
pub proof fn lemma_set_then_get(registers: Seq<Seq<char>>, key: RegisterKey, other: RegisterKey, value: Seq<char>)
    requires
        registers.len() == REGISTERS_LEN,
        key.index() < REGISTERS_LEN,
        other.index() < REGISTERS_LEN,
    ensures
        registers.update(key.index(), value)[key.index()] == value,
        other.index() != key.index() ==> registers.update(key.index(), value)[other.index()] == registers[other.index()],
{
}

} // verus!
