use vstd::prelude::*;

verus! {

/// A variable's name: a symbol character in the upper 32 bits and a number in the lower 32.
#[derive(Copy, Clone, PartialEq, Eq, PartialOrd, Hash, Debug, Structural)]
pub struct Key(pub u64);

impl Key {
    pub fn symbol(c: char, id: u32) -> (r: Key)
        ensures
            r.0 == (c as u64) * 0x1_0000_0000 + (id as u64),
    {
        let hi: u64 = c as u32 as u64;
        let lo: u64 = id as u64;
        assert(hi < 0x1_0000_0000);
        assert((hi << 32u64) | lo == hi * 0x1_0000_0000 + lo) by (bit_vector)
            requires
                hi < 0x1_0000_0000,
                lo < 0x1_0000_0000,
        ;
        Key((hi << 32u64) | lo)
    }

    /// The symbol character.
    pub fn symbol_char(&self) -> (r: u64)
        ensures
            r == self.0 / 0x1_0000_0000,
    {
        let k = self.0;
        assert(k >> 32u64 == k / 0x1_0000_0000) by (bit_vector);
        k >> 32u64
    }

    /// The number, as shown next to the symbol: its low 16 bits.
    pub fn index(&self) -> (r: u64)
        ensures
            r == self.0 % 0x1_0000,
    {
        let k = self.0;
        assert(k & 0xFFFFu64 == k % 0x1_0000) by (bit_vector);
        k & 0xFFFF
    }
}

/// A discrete variable: its key and its number of states.
#[derive(Copy, Clone, PartialEq, Eq, PartialOrd, Hash, Debug, Structural)]
pub struct Variable {
    pub key: Key,
    pub cardinality: u32,
}

impl Variable {
    pub fn new(key: Key, cardinality: u32) -> (r: Variable)
        ensures
            r.key == key,
            r.cardinality == cardinality,
    {
        Variable { key, cardinality }
    }
}

} // verus!
