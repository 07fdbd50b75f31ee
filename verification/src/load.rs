//! Reading binaries.

use vstd::prelude::*;

use crate::bridge;
use crate::convert;
use crate::model::{ModuleView, SpvModule};
use crate::opcode;

verus! {

/// The module that a binary holds.
pub open spec fn binary_module(bytes: Seq<u8>) -> ModuleView {
    ModuleView {
        header: Some(bridge::header_of(bridge::words_of(bytes))),
        ..convert::loaded(bridge::parsed(bytes)->0)
    }
}

/// Whether bytes are the binary of a module.
pub open spec fn is_binary(bytes: Seq<u8>) -> bool {
    bridge::framed(bridge::words_of(bytes), bridge::HEADER_WORDS as int) && bridge::parsed(
        bytes,
    ) is Some
}

/// The bytes of words, the lowest byte of each one first.
pub open spec fn bytes_of(words: Seq<u32>) -> Seq<u8> {
    Seq::new(
        4 * words.len(),
        |k: int|
            if k % 4 == 0 {
                (words[k / 4] % 0x100) as u8
            } else if k % 4 == 1 {
                (words[k / 4] / 0x100 % 0x100) as u8
            } else if k % 4 == 2 {
                (words[k / 4] / 0x1_0000 % 0x100) as u8
            } else {
                (words[k / 4] / 0x100_0000) as u8
            },
    )
}

/// Word `k` of a binary.
fn word_at(bytes: &[u8], k: usize) -> (r: u32)
    requires
        k < bytes@.len() / 4,
    ensures
        r == bridge::words_of(bytes@)[k as int],
{
    let n: usize = bytes.len();
    assert(4 * k + 3 < n);
    let i: usize = 4 * k;
    bytes[i] as u32 + 0x100 * bytes[i + 1] as u32 + 0x1_0000 * bytes[i + 2] as u32 + 0x100_0000
        * bytes[i + 3] as u32
}

/// Whether the word counts cut a binary into instructions that can be read.
fn is_framed(bytes: &[u8]) -> (r: bool)
    ensures
        r == bridge::framed(bridge::words_of(bytes@), bridge::HEADER_WORDS as int),
{
    let ghost words = bridge::words_of(bytes@);
    let n: usize = bytes.len() / 4;
    let mut at: usize = bridge::HEADER_WORDS;
    while at < n
        invariant
            words == bridge::words_of(bytes@),
            n == words.len(),
            bridge::framed(words, bridge::HEADER_WORDS as int) == bridge::framed(words, at as int),
        decreases n - at,
    {
        let word: u32 = word_at(bytes, at);
        let count: usize = (word / 0x1_0000) as usize;
        if count == 0 || count > n - at {
            return false;
        }
        if word % 0x1_0000 == opcode::SPEC_CONSTANT_OP && count > 3 {
            let inner: u32 = word_at(bytes, at + 3);
            if inner == opcode::CONSTANT || inner == opcode::SPEC_CONSTANT || inner
                == opcode::SPEC_CONSTANT_OP || inner == opcode::SWITCH {
                return false;
            }
        }
        at = at + count;
    }
    true
}

/// Tells whether bytes are the binary of a module.
pub fn can_load(bytes: &[u8]) -> (r: bool)
    ensures
        r == is_binary(bytes@),
{
    if !is_framed(bytes) {
        return false;
    }
    let mut loader = bridge::new_loader();
    bridge::parse_bytes(bytes, &mut loader)
}

/// Reads the binary of a module.
pub fn load(bytes: &[u8]) -> (r: SpvModule)
    requires
        is_binary(bytes@),
    ensures
        r@ == binary_module(bytes@),
{
    let mut loader = bridge::new_loader();
    bridge::parse_bytes(bytes, &mut loader);
    convert::read_module(bridge::loader_module(loader))
}

/// Reads the binary of a module, if the bytes are one.
pub fn try_load(bytes: &[u8]) -> (r: Option<SpvModule>)
    ensures
        r is Some <==> is_binary(bytes@),
        r is Some ==> (r->0)@ == binary_module(bytes@),
{
    if can_load(bytes) {
        Some(load(bytes))
    } else {
        None
    }
}

/// Lays out words as bytes.
fn write_bytes(words: &[u32]) -> (r: Vec<u8>)
    ensures
        r@ == bytes_of(words@),
{
    let mut r: Vec<u8> = Vec::new();
    for k in 0..words.len()
        invariant
            r@ == bytes_of(words@.take(k as int)),
    {
        let w: u32 = words[k];
        r.push((w % 0x100) as u8);
        r.push((w / 0x100 % 0x100) as u8);
        r.push((w / 0x1_0000 % 0x100) as u8);
        r.push((w / 0x100_0000) as u8);
        assert(r@ =~= bytes_of(words@.take(k + 1)));
    }
    assert(words@.take(words@.len() as int) =~= words@);
    r
}

/// Reads the binary of a module from its words, the natural form of what a
/// compiler hands over.
///
/// The words are laid out as bytes, the lowest byte of each first, and then read as
/// such: `rspirv::binary::parse_words` takes them as they lie in memory, which is
/// the same on machines that store the lowest byte first, and on no others.
pub fn load_words(words: &[u32]) -> (r: SpvModule)
    requires
        is_binary(bytes_of(words@)),
    ensures
        r@ == binary_module(bytes_of(words@)),
{
    load(write_bytes(words).as_slice())
}

/// Reads the binary of a module from its words, if they are one.
pub fn try_load_words(words: &[u32]) -> (r: Option<SpvModule>)
    ensures
        r is Some <==> is_binary(bytes_of(words@)),
        r is Some ==> (r->0)@ == binary_module(bytes_of(words@)),
{
    if can_load(write_bytes(words).as_slice()) {
        Some(load_words(words))
    } else {
        None
    }
}

/// Laying out words as bytes and reading the bytes as words gives the words back.
pub proof fn law_words_of_bytes(words: Seq<u32>)
    ensures
        bridge::words_of(bytes_of(words)) == words,
{
    let bytes = bytes_of(words);
    assert forall|k: int| 0 <= k < words.len() implies #[trigger] bridge::words_of(bytes)[k]
        == words[k] by {
        let w = words[k];
        assert(bytes[4 * k] == (w % 0x100) as u8);
        assert(bytes[4 * k + 1] == (w / 0x100 % 0x100) as u8);
        assert(bytes[4 * k + 2] == (w / 0x1_0000 % 0x100) as u8);
        assert(bytes[4 * k + 3] == (w / 0x100_0000) as u8);
    }
    assert(bridge::words_of(bytes) =~= words);
}

/// Words take up four bytes each, and the four bytes of a word make it up, the lowest one
/// first.
pub proof fn law_bytes_of_words(words: Seq<u32>, k: int)
    requires
        0 <= k < words.len(),
    ensures
        bytes_of(words).len() == 4 * words.len(),
        words[k] == bytes_of(words)[4 * k] + 0x100 * bytes_of(words)[4 * k + 1] + 0x1_0000
            * bytes_of(words)[4 * k + 2] + 0x100_0000 * bytes_of(words)[4 * k + 3],
{
    let b = bytes_of(words);
    law_words_of_bytes(words);
    assert(bridge::words_of(b)[k] == bridge::word_of(
        b[4 * k],
        b[4 * k + 1],
        b[4 * k + 2],
        b[4 * k + 3],
    ));
}

/// Whether an instruction at `at` can be read: its first word counts its words, which are
/// all there, and it is no constant operation on an opcode whose operands depend on what
/// comes before.
pub open spec fn is_readable_at(words: Seq<u32>, at: int) -> bool {
    let count = words[at] as int / 0x1_0000;
    &&& 1 <= count
    &&& at + count <= words.len()
    &&& words[at] as int % 0x1_0000 == opcode::SPEC_CONSTANT_OP && count > 3 ==> words[at + 3]
        != opcode::CONSTANT && words[at + 3] != opcode::SPEC_CONSTANT && words[at + 3]
        != opcode::SPEC_CONSTANT_OP && words[at + 3] != opcode::SWITCH
}

/// Whether `cuts` are the places where the instructions of a binary begin, from `at` on, and
/// the place where the last one ends.
pub open spec fn are_cuts(words: Seq<u32>, at: int, cuts: Seq<int>) -> bool {
    &&& cuts.len() > 0
    &&& cuts[0] == at
    &&& cuts.last() >= words.len()
    &&& forall|k: int|
        0 <= k < cuts.len() - 1 ==> {
            &&& 0 <= #[trigger] cuts[k] < words.len()
            &&& is_readable_at(words, cuts[k])
            &&& cuts[k + 1] == cuts[k] + words[cuts[k]] as int / 0x1_0000
        }
}

proof fn lemma_cuts(words: Seq<u32>, at: int) -> (cuts: Seq<int>)
    requires
        0 <= at,
        bridge::framed(words, at),
    ensures
        are_cuts(words, at, cuts),
    decreases words.len() - at,
{
    if at >= words.len() {
        seq![at]
    } else {
        let next = at + bridge::word_count(words[at]);
        let rest = lemma_cuts(words, next);
        let cuts = seq![at] + rest;
        assert forall|k: int| 0 <= k < cuts.len() - 1 implies {
            &&& 0 <= #[trigger] cuts[k] < words.len()
            &&& is_readable_at(words, cuts[k])
            &&& cuts[k + 1] == cuts[k] + words[cuts[k]] as int / 0x1_0000
        } by {
            if k > 0 {
                assert(cuts[k] == rest[k - 1]);
                assert(cuts[k + 1] == rest[k]);
            } else {
                assert(cuts[1] == rest[0]);
            }
        }
        assert(cuts.last() == rest.last());
        cuts
    }
}

proof fn lemma_framed(words: Seq<u32>, at: int, cuts: Seq<int>)
    requires
        0 <= at,
        are_cuts(words, at, cuts),
    ensures
        bridge::framed(words, at),
    decreases cuts.len(),
{
    if at < words.len() {
        assert(cuts.len() > 1) by {
            if cuts.len() == 1 {
                assert(cuts.last() == cuts[0]);
            }
        }
        assert(is_readable_at(words, cuts[0]));
        let rest = cuts.drop_first();
        assert forall|k: int| 0 <= k < rest.len() - 1 implies {
            &&& 0 <= #[trigger] rest[k] < words.len()
            &&& is_readable_at(words, rest[k])
            &&& rest[k + 1] == rest[k] + words[rest[k]] as int / 0x1_0000
        } by {
            assert(rest[k] == cuts[k + 1]);
            assert(rest[k + 1] == cuts[k + 1 + 1]);
        }
        assert(rest[0] == cuts[1]);
        assert(cuts[0int + 1] == cuts[0] + words[cuts[0]] as int / 0x1_0000);
        lemma_framed(words, rest[0], rest);
    }
}

/// The word counts cut a binary into instructions that can be read exactly where there are
/// such cuts, the first of them after the five words of the header.
pub proof fn law_framed(words: Seq<u32>)
    ensures
        bridge::framed(words, bridge::HEADER_WORDS as int) <==> exists|cuts: Seq<int>| #[trigger]
            are_cuts(words, 5, cuts),
{
    if bridge::framed(words, bridge::HEADER_WORDS as int) {
        let cuts = lemma_cuts(words, 5);
        assert(are_cuts(words, 5, cuts));
    }
    if exists|cuts: Seq<int>| #[trigger] are_cuts(words, 5, cuts) {
        let cuts = choose|cuts: Seq<int>| #[trigger] are_cuts(words, 5, cuts);
        lemma_framed(words, 5, cuts);
    }
}

} // verus!
