//! Flag storage: one flag per index, kept either one word per flag or one
//! bit per flag, in words of eight or of thirty-two bits.

use vstd::prelude::*;

verus! {

/// How a flag is laid down in the storage words.
#[derive(Clone, Copy, Debug, PartialEq, Eq, Structural)]
pub enum Encoding {
    /// One whole word per flag.
    Bool,
    /// One bit per flag, the bits of a word filled from the lowest.
    Bit,
}

/// The width of a storage word.
#[derive(Clone, Copy, Debug, PartialEq, Eq, Structural)]
pub enum Width {
    /// Words of eight bits.
    U8,
    /// Words of thirty-two bits.
    U32,
}

impl Encoding {
    /// The name of the encoding in reports.
    pub open spec fn spec_id_str(self) -> Seq<char> {
        match self {
            Encoding::Bool => "bool"@,
            Encoding::Bit => "bit"@,
        }
    }

    /// The name of the encoding in reports.
    pub fn id_str(&self) -> (name: &'static str)
        ensures
            name@ == self.spec_id_str(),
    {
        match self {
            Encoding::Bool => "bool",
            Encoding::Bit => "bit",
        }
    }
}

impl Width {
    /// The number of bits of a word.
    pub fn bits(&self) -> (bits: usize)
        ensures
            bits == width_bits(*self),
    {
        match self {
            Width::U8 => 8,
            Width::U32 => 32,
        }
    }

    /// The number of bytes of a word.
    pub fn bytes(&self) -> (bytes: usize)
        ensures
            bytes == width_bytes(*self),
    {
        match self {
            Width::U8 => 1,
            Width::U32 => 4,
        }
    }
}

/// The number of bits of storage that one flag takes: a whole word, or one
/// bit.
pub open spec fn flag_bits(encoding: Encoding, width: Width) -> int {
    match encoding {
        Encoding::Bool => width_bits(width),
        Encoding::Bit => 1,
    }
}

/// The number of bits of storage that one flag takes.
pub fn flag_size(encoding: Encoding, width: Width) -> (bits: usize)
    ensures
        bits == flag_bits(encoding, width),
        bits * flags_per_word(encoding, width) == width_bits(width),
{
    match encoding {
        Encoding::Bool => width.bits(),
        Encoding::Bit => 1,
    }
}

/// The number of bits of a word of width `width`.
pub open spec fn width_bits(width: Width) -> int {
    match width {
        Width::U8 => 8,
        Width::U32 => 32,
    }
}

/// The number of bytes of a word of width `width`.
pub open spec fn width_bytes(width: Width) -> int {
    match width {
        Width::U8 => 1,
        Width::U32 => 4,
    }
}

/// The number of flags that one word holds.
pub open spec fn flags_per_word(encoding: Encoding, width: Width) -> int {
    match encoding {
        Encoding::Bool => 1,
        Encoding::Bit => width_bits(width),
    }
}

/// The number of words that `len` flags take.
pub open spec fn words_for(encoding: Encoding, width: Width, len: int) -> int {
    (len + flags_per_word(encoding, width) - 1) / flags_per_word(encoding, width)
}

/// The number of bytes that the words of `len` flags take.
pub open spec fn storage_bytes(encoding: Encoding, width: Width, len: int) -> int {
    match width {
        Width::U8 => words_for(encoding, width, len),
        Width::U32 => 4 * words_for(encoding, width, len),
    }
}

/// More flags never take fewer bytes.
pub proof fn lemma_storage_bytes_grow(encoding: Encoding, width: Width, fewer: int, more: int)
    requires
        0 <= fewer <= more,
    ensures
        0 <= storage_bytes(encoding, width, fewer) <= storage_bytes(encoding, width, more),
{
}

/// Whether the words of `len` flags can be allocated at all: no
/// allocation is larger than `isize::MAX` bytes.
pub fn fits(encoding: Encoding, width: Width, len: usize) -> (fits: bool)
    ensures
        fits == (storage_bytes(encoding, width, len as int) <= isize::MAX),
{
    let words = FlagData::word_count(encoding, width, len);
    let most: usize = isize::MAX as usize;
    match width {
        Width::U8 => words <= most,
        Width::U32 => words <= most / 4,
    }
}

/// Bit `k` of an eight-bit word is clear.
pub open spec fn bit_clear_u8(word: u8, k: u8) -> bool {
    word & (1u8 << k) == 0
}

/// Bit `k` of a thirty-two-bit word is clear.
pub open spec fn bit_clear_u32(word: u32, k: u32) -> bool {
    word & (1u32 << k) == 0
}

/// Setting bit `k` of a word leaves every other bit as it was, and no bit
/// of the word 0 is set.
proof fn lemma_set_bit_u8(word: u8, k: u8, j: u8)
    by (bit_vector)
    requires
        k < 8,
        j < 8,
    ensures
        bit_clear_u8(word | (1u8 << k), j) == (bit_clear_u8(word, j) && j != k),
        bit_clear_u8(0u8, j),
{
}

/// Setting bit `k` of a word leaves every other bit as it was, and no bit
/// of the word 0 is set.
proof fn lemma_set_bit_u32(word: u32, k: u32, j: u32)
    by (bit_vector)
    requires
        k < 32,
        j < 32,
    ensures
        bit_clear_u32(word | (1u32 << k), j) == (bit_clear_u32(word, j) && j != k),
        bit_clear_u32(0u32, j),
{
}

/// `len` flags, all of them set.
pub open spec fn all_set(len: nat) -> Seq<bool> {
    Seq::new(len, |i: int| true)
}

/// The number of flags of `flags` that are set.
pub open spec fn count_set(flags: Seq<bool>) -> nat
    decreases flags.len(),
{
    if flags.len() == 0 {
        0
    } else if flags.last() {
        count_set(flags.drop_last()) + 1
    } else {
        count_set(flags.drop_last())
    }
}

/// The storage words, of one width or the other.
enum Words {
    /// Words of eight bits.
    Narrow(Vec<u8>),
    /// Words of thirty-two bits.
    Wide(Vec<u32>),
}

/// A fixed number of flags, every one of them either still set ("may be
/// prime") or cleared for good ("composite").
pub struct FlagData {
    encoding: Encoding,
    len: usize,
    words: Words,
}

impl View for FlagData {
    type V = Seq<bool>;

    /// The flags in the order of their indices: `true` where the flag is
    /// still set.
    closed spec fn view(&self) -> Seq<bool> {
        Seq::new(self.len as nat, |i: int| self.flag(i))
    }
}

impl FlagData {
    /// The words are as many as the flags need, and they fit in one
    /// allocation.
    pub closed spec fn wf(&self) -> bool {
        &&& storage_bytes(self.encoding, self.spec_width(), self.len as int) <= isize::MAX
        &&& self.spec_word_len() == words_for(self.encoding, self.spec_width(), self.len as int)
    }

    /// The number of storage words.
    pub closed spec fn spec_word_len(&self) -> nat {
        match self.words {
            Words::Narrow(words) => words@.len(),
            Words::Wide(words) => words@.len(),
        }
    }

    /// The encoding that the storage was made with.
    pub closed spec fn spec_encoding(&self) -> Encoding {
        self.encoding
    }

    /// The word width that the storage was made with.
    pub closed spec fn spec_width(&self) -> Width {
        match self.words {
            Words::Narrow(_) => Width::U8,
            Words::Wide(_) => Width::U32,
        }
    }

    /// What the words say of the flag at `i`: a flag is set as long as its
    /// word, or its bit, is zero.
    closed spec fn flag(&self, i: int) -> bool {
        match self.words {
            Words::Narrow(words) => match self.encoding {
                Encoding::Bool => words@[i] == 0,
                Encoding::Bit => bit_clear_u8(words@[i / 8], (i % 8) as u8),
            },
            Words::Wide(words) => match self.encoding {
                Encoding::Bool => words@[i] == 0,
                Encoding::Bit => bit_clear_u32(words@[i / 32], (i % 32) as u32),
            },
        }
    }

    /// The number of words, written out for each encoding and width.
    proof fn lemma_word_len(&self)
        requires
            self.wf(),
        ensures
            self.spec_word_len() == match self.spec_encoding() {
                Encoding::Bool => self@.len() as int,
                Encoding::Bit => match self.spec_width() {
                    Width::U8 => (self@.len() as int + 7) / 8,
                    Width::U32 => (self@.len() as int + 31) / 32,
                },
            },
    {
    }

    /// The number of words that `len` flags take.
    fn word_count(encoding: Encoding, width: Width, len: usize) -> (count: usize)
        ensures
            count == words_for(encoding, width, len as int),
    {
        match encoding {
            Encoding::Bool => len,
            Encoding::Bit => match width {
                Width::U8 => len / 8 + (if len % 8 == 0 { 0 } else { 1 }),
                Width::U32 => len / 32 + (if len % 32 == 0 { 0 } else { 1 }),
            },
        }
    }

    /// Storage for `len` flags, all of them set.
    pub fn new(encoding: Encoding, width: Width, len: usize) -> (flags: FlagData)
        requires
            storage_bytes(encoding, width, len as int) <= isize::MAX,
        ensures
            flags.wf(),
            flags.spec_encoding() == encoding,
            flags.spec_width() == width,
            flags@ == all_set(len as nat),
    {
        let count = Self::word_count(encoding, width, len);
        let words = match width {
            Width::U8 => Words::Narrow(vec![0u8; count]),
            Width::U32 => Words::Wide(vec![0u32; count]),
        };
        let flags = FlagData { encoding, len, words };
        proof {
            assert forall|i: int| 0 <= i < len implies flags.flag(i) by {
                lemma_set_bit_u8(0u8, 0u8, (i % 8) as u8);
                lemma_set_bit_u32(0u32, 0u32, (i % 32) as u32);
            }
            assert(flags@ =~= all_set(len as nat));
        }
        flags
    }

    /// The number of flags.
    pub fn len(&self) -> (len: usize)
        ensures
            len == self@.len(),
    {
        self.len
    }

    /// The encoding that the storage was made with.
    pub fn encoding(&self) -> (encoding: Encoding)
        ensures
            encoding == self.spec_encoding(),
    {
        self.encoding
    }

    /// The word width that the storage was made with.
    pub fn width(&self) -> (width: Width)
        ensures
            width == self.spec_width(),
    {
        match &self.words {
            Words::Narrow(_) => Width::U8,
            Words::Wide(_) => Width::U32,
        }
    }

    /// The number of storage words: as many as the flags need, and no
    /// more.
    pub fn word_len(&self) -> (words: usize)
        requires
            self.wf(),
        ensures
            words == self.spec_word_len(),
            words == words_for(self.spec_encoding(), self.spec_width(), self@.len() as int),
    {
        match &self.words {
            Words::Narrow(words) => words.len(),
            Words::Wide(words) => words.len(),
        }
    }

    /// The number of bytes that the storage words take.
    pub fn byte_len(&self) -> (bytes: usize)
        requires
            self.wf(),
        ensures
            bytes == storage_bytes(self.spec_encoding(), self.spec_width(), self@.len() as int),
    {
        match &self.words {
            Words::Narrow(words) => words.len(),
            Words::Wide(words) => 4 * words.len(),
        }
    }

    /// Whether the flag at `index` is still set.
    pub fn is_prime(&self, index: usize) -> (set: bool)
        requires
            self.wf(),
            index < self@.len(),
        ensures
            set == self@[index as int],
    {
        proof {
            self.lemma_word_len();
        }
        match &self.words {
            Words::Narrow(words) => match self.encoding {
                Encoding::Bool => words[index] == 0,
                Encoding::Bit => {
                    let k: u8 = (index % 8) as u8;
                    words[index / 8] & (1u8 << k) == 0
                },
            },
            Words::Wide(words) => match self.encoding {
                Encoding::Bool => words[index] == 0,
                Encoding::Bit => {
                    let k: u32 = (index % 32) as u32;
                    words[index / 32] & (1u32 << k) == 0
                },
            },
        }
    }

    /// Clears the flag at `index`: with a word per flag by a store, with
    /// a bit per flag by reading the word, setting the bit and storing
    /// the word.
    pub fn mark_composite(&mut self, index: usize)
        requires
            old(self).wf(),
            index < old(self)@.len(),
        ensures
            final(self).wf(),
            final(self).spec_encoding() == old(self).spec_encoding(),
            final(self).spec_width() == old(self).spec_width(),
            final(self)@ == old(self)@.update(index as int, false),
    {
        let encoding = self.encoding;
        proof {
            self.lemma_word_len();
        }
        match &mut self.words {
            Words::Narrow(words) => match encoding {
                Encoding::Bool => {
                    words[index] = 1;
                },
                Encoding::Bit => {
                    let k: u8 = (index % 8) as u8;
                    let word: u8 = words[index / 8];
                    words[index / 8] = word | (1u8 << k);
                },
            },
            Words::Wide(words) => match encoding {
                Encoding::Bool => {
                    words[index] = 1;
                },
                Encoding::Bit => {
                    let k: u32 = (index % 32) as u32;
                    let word: u32 = words[index / 32];
                    words[index / 32] = word | (1u32 << k);
                },
            },
        }
        proof {
            assert forall|j: int| 0 <= j < self.len implies self.flag(j) == (old(self).flag(j) && j
                != index) by {
                match old(self).words {
                    Words::Narrow(before) => {
                        if encoding == Encoding::Bit {
                            lemma_set_bit_u8(
                                before@[index as int / 8],
                                (index % 8) as u8,
                                (j % 8) as u8,
                            );
                        }
                    },
                    Words::Wide(before) => {
                        if encoding == Encoding::Bit {
                            lemma_set_bit_u32(
                                before@[index as int / 32],
                                (index % 32) as u32,
                                (j % 32) as u32,
                            );
                        }
                    },
                }
            }
            assert(self@ =~= old(self)@.update(index as int, false));
        }
    }

    /// The number of flags that are still set, found by one scan.
    pub fn count(&self) -> (count: usize)
        requires
            self.wf(),
        ensures
            count == count_set(self@),
    {
        let mut count: usize = 0;
        let mut index: usize = 0;
        while index < self.len
            invariant
                self.wf(),
                index <= self.len,
                self@.len() == self.len,
                count == count_set(self@.take(index as int)),
                count <= index,
            decreases self.len - index,
        {
            proof {
                assert(self@.take(index + 1).drop_last() =~= self@.take(index as int));
            }
            if self.is_prime(index) {
                count = count + 1;
            }
            index = index + 1;
        }
        proof {
            assert(self@.take(index as int) =~= self@);
        }
        count
    }
}

} // verus!
