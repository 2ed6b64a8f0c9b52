//! Text conversion: UTF-16 code units, as they lie in MFT name attributes
//! and journal records, decoded to a string.
use vstd::prelude::*;

verus! {

/// The characters that lossy UTF-16 decoding yields for the given units:
/// well-formed input decodes exactly; unpaired surrogates become the
/// replacement character. The result is a function of the units alone.
pub uninterp spec fn utf16_of(units: Seq<u16>) -> Seq<char>;

/// Relies on String::from_utf16_lossy: the decoding depends on the units
/// alone, and no units decode to the empty string.
#[verifier::external_body]
pub fn utf16_lossy(units: &Vec<u16>) -> (r: String)
    ensures
        r@ == utf16_of(units@),
        units@.len() == 0 ==> r@.len() == 0,
{
    String::from_utf16_lossy(units.as_slice())
}

/// The UTF-16 code units held little-endian in `b`, in order.
pub open spec fn spec_utf16_units(b: Seq<u8>) -> Seq<u16> {
    Seq::new(
        (b.len() / 2) as nat,
        |i: int| vstd::bytes::spec_u16_from_le_bytes(b.subrange(2 * i, 2 * i + 2)),
    )
}

/// Decodes `units` UTF-16 code units lying little-endian at `base` into a
/// string.
pub fn utf16_slice_to_string(data: &[u8], base: usize, units: usize) -> (r: String)
    requires
        base + 2 * units <= data@.len(),
    ensures
        r@ == utf16_of(spec_utf16_units(data@.subrange(base as int, base + 2 * units))),
{
    let ghost name_bytes = data@.subrange(base as int, base + 2 * units);
    let n = data.len();
    proof {
        assert(base + 2 * units <= n);
    }
    let mut v: Vec<u16> = Vec::new();
    let mut j: usize = 0;
    while j < units
        invariant
            j <= units,
            base + 2 * units <= data@.len(),
            base + 2 * units <= usize::MAX,
            name_bytes == data@.subrange(base as int, base + 2 * units),
            v@.len() == j,
            forall|jj: int|
                0 <= jj < j ==> #[trigger] v@[jj] == vstd::bytes::spec_u16_from_le_bytes(
                    data@.subrange(base + 2 * jj, base + 2 * jj + 2),
                ),
        decreases units - j,
    {
        v.push(
            vstd::bytes::u16_from_le_bytes(
                vstd::slice::slice_subrange(data, base + 2 * j, base + 2 * j + 2),
            ),
        );
        j = j + 1;
    }
    proof {
        assert forall|jj: int| 0 <= jj < units implies v@[jj] == spec_utf16_units(name_bytes)[jj] by {
            assert(name_bytes.subrange(2 * jj, 2 * jj + 2) =~= data@.subrange(
                base + 2 * jj,
                base + 2 * jj + 2,
            ));
        }
        assert(v@ =~= spec_utf16_units(name_bytes));
    }
    utf16_lossy(&v)
}

/// Relies on String::push: appends exactly the one character.
#[verifier::external_body]
pub fn push_char(s: &mut String, c: char)
    ensures
        final(s)@ == old(s)@.push(c),
{
    s.push(c);
}

} // verus!
