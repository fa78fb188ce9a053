//! Pure building blocks of the extractor: word packing, breakpoint register
//! arithmetic, the injected shell's memory image, and symbol resolution.

pub mod elf;
pub mod fake;
pub mod inject;
pub mod mangle;
pub mod maps;
pub mod ptrace;

use vstd::prelude::*;

verus! {

/// Pack bytes into little-endian 64-bit words, padding a trailing partial
/// word with `with` bytes.
pub open spec fn spec_pad_to_word(buf: Seq<u8>, with: u8) -> Seq<u64> {
    let padded = if buf.len() % 8 == 0 {
        buf
    } else {
        buf + Seq::new((8 - buf.len() % 8) as nat, |k: int| with)
    };
    Seq::new(padded.len() / 8, |k: int| vstd::bytes::spec_u64_from_le_bytes(
        padded.subrange(8 * k, 8 * k + 8),
    ))
}

/// Pack a byte blob into whole little-endian 64-bit words; a trailing partial
/// word is filled out with the byte `with`.
pub fn pad_to_word(buf: &[u8], with: u8) -> (r: Vec<u64>)
    requires
        buf@.len() + 8 <= usize::MAX,
    ensures
        r@ == spec_pad_to_word(buf@, with),
{
    let len = buf.len();
    let rem = len % 8;
    let target = if rem == 0 {
        len
    } else {
        len + (8 - rem)
    };
    proof {
        assert(len as int == 8 * (len as int / 8) + len as int % 8);
        if rem != 0 {
            assert(target as int == 8 * (len as int / 8 + 1));
            assert(target as int % 8 == 0) by (nonlinear_arith)
                requires
                    target as int == 8 * (len as int / 8 + 1),
            ;
        }
    }
    let mut padded: Vec<u8> = Vec::new();
    padded.extend_from_slice(buf);
    proof {
        assert(padded@ =~= buf@ + Seq::new(0, |k: int| with));
    }
    while padded.len() < target
        invariant
            len == buf@.len(),
            target <= buf@.len() + 8,
            target as int % 8 == 0,
            buf@.len() <= padded@.len() <= target,
            padded@ == buf@ + Seq::new((padded@.len() - buf@.len()) as nat, |k: int| with),
        decreases target - padded@.len(),
    {
        padded.push(with);
        proof {
            assert(padded@ =~= buf@ + Seq::new((padded@.len() - buf@.len()) as nat, |k: int| with));
        }
    }
    proof {
        if buf@.len() % 8 == 0 {
            assert(padded@ =~= buf@);
        }
    }
    let ghost padded_seq = padded@;
    let n = padded.len() / 8;
    proof {
        assert(padded@.len() as int == 8 * (padded@.len() as int / 8) + padded@.len() as int % 8);
    }
    let mut ret: Vec<u64> = Vec::new();
    for i in 0..n
        invariant
            padded@ == padded_seq,
            padded@.len() == 8 * n,
            8 * n <= usize::MAX,
            ret@.len() == i,
            forall|k: int| 0 <= k < i ==> ret@[k] == vstd::bytes::spec_u64_from_le_bytes(
                padded_seq.subrange(8 * k, 8 * k + 8),
            ),
    {
        let w = vstd::bytes::u64_from_le_bytes(vstd::slice::slice_subrange(
            padded.as_slice(),
            8 * i,
            8 * i + 8,
        ));
        ret.push(w);
    }
    proof {
        if buf@.len() % 8 == 0 {
            assert(padded_seq =~= buf@);
        }
        assert(ret@ =~= spec_pad_to_word(buf@, with));
    }
    ret
}

} // verus!
