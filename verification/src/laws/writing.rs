//! How what was found is written.

use vstd::prelude::*;

#[allow(unused_imports)]
use crate::error::ErrorView;
#[allow(unused_imports)]
use crate::inspect::{
    is_address, listing_line, mode_text, padded, remote, unit_of, SizeUnit, SourceView,
};
#[allow(unused_imports)]
use crate::laws::disk::inode_says_what_it_holds;
#[allow(unused_imports)]
use crate::text::{decimal, hex, hex32, hex_byte, trim_nul};
#[allow(unused_imports)]
use crate::types::Inode;
#[allow(unused_imports)]
use vstd::arithmetic::power2::pow2;

verus! {

/// Whether `t` is `s` up to some place, behind which `s` has only NULs, and `t` does not end
/// in a NUL.
pub open spec fn is_without_nuls_at_its_end(t: Seq<char>, s: Seq<char>) -> bool {
    &&& t.len() <= s.len()
    &&& t == s.subrange(0, t.len() as int)
    &&& forall|i: int| t.len() <= i < s.len() ==> s[i] == '\0'
    &&& t.len() > 0 ==> t[t.len() - 1] != '\0'
}

/// Of the NULs of a text only those at its end are dropped, and all of those.
pub proof fn nuls_at_the_end_are_dropped(s: Seq<char>)
    ensures
        is_without_nuls_at_its_end(trim_nul(s), s),
    decreases s.len(),
{
    if s.len() > 0 && s.last() == '\0' {
        let shorter = s.drop_last();
        nuls_at_the_end_are_dropped(shorter);
        let t = trim_nul(s);
        assert(shorter.subrange(0, t.len() as int) =~= s.subrange(0, t.len() as int));
        assert forall|i: int| t.len() <= i < s.len() implies s[i] == '\0' by {
            if i < s.len() - 1 {
                assert(shorter[i] == s[i]);
            }
        }
    } else {
        assert(s =~= s.subrange(0, s.len() as int));
    }
}

/// The number that a digit stands for, up to 15.
pub open spec fn digit_value(c: char) -> int {
    if '0' <= c <= '9' {
        c as int - 48
    } else if 'a' <= c <= 'f' {
        c as int - 97 + 10
    } else {
        -1
    }
}

/// The number that the digits of a text stand for, in base 10.
pub open spec fn number_of(s: Seq<char>) -> int
    decreases s.len(),
{
    if s.len() == 0 {
        0
    } else {
        number_of(s.drop_last()) * 10 + digit_value(s.last())
    }
}

/// A number is written in base 10, without leading zeros: the digits stand for it.
pub proof fn numbers_are_written_in_base_ten(n: nat)
    ensures
        number_of(decimal(n)) == n,
        decimal(n).len() > 0,
        forall|i: int|
            0 <= i < decimal(n).len() ==> 0 <= digit_value(#[trigger] decimal(n)[i]) < 10,
        decimal(n)[0] == '0' ==> n == 0 && decimal(n).len() == 1,
    decreases n,
{
    if n >= 10 {
        numbers_are_written_in_base_ten(n / 10);
        let s = decimal(n);
        assert(s.drop_last() =~= decimal(n / 10));
        assert(s[0] == decimal(n / 10)[0]);
    } else {
        let s = decimal(n);
        assert(s.drop_last() =~= Seq::<char>::empty());
        assert(number_of(s.drop_last()) == 0);
    }
}

/// Whether two hexadecimal digits stand for a byte.
pub open spec fn stand_for(high: char, low: char, b: u8) -> bool {
    &&& 0 <= digit_value(high) < 16
    &&& 0 <= digit_value(low) < 16
    &&& digit_value(high) * 16 + digit_value(low) == b
}

/// Whether `t` has two digits for each byte of `s`, in order.
pub open spec fn is_hexadecimal(t: Seq<char>, s: Seq<u8>) -> bool {
    &&& t.len() == 2 * s.len()
    &&& forall|i: int|
        0 <= i < s.len() ==> stand_for(t[2 * i], t[2 * i + 1], #[trigger] s[i])
}

/// Bytes are written with two hexadecimal digits each.
pub proof fn bytes_are_written_in_hexadecimal(s: Seq<u8>)
    ensures
        is_hexadecimal(hex(s), s),
    decreases s.len(),
{
    if s.len() > 0 {
        let shorter = s.drop_last();
        bytes_are_written_in_hexadecimal(shorter);
        let t = hex(s);
        assert forall|i: int| 0 <= i < s.len() implies stand_for(
            t[2 * i],
            t[2 * i + 1],
            #[trigger] s[i],
        ) by {
            if i < s.len() - 1 {
                assert(shorter[i] == s[i]);
                assert(t[2 * i] == hex(shorter)[2 * i]);
                assert(t[2 * i + 1] == hex(shorter)[2 * i + 1]);
            } else {
                assert(t[2 * i] == hex_byte(s[i])[0]);
                assert(t[2 * i + 1] == hex_byte(s[i])[1]);
            }
        }
    }
}

/// A number of 32 bits is written as `0x` and eight hexadecimal digits, the high ones first.
pub proof fn words_are_written_with_eight_digits(v: u32)
    ensures
        hex32(v).len() == 10,
        hex32(v)[0] == '0',
        hex32(v)[1] == 'x',
        ({
            let d = |i: int| digit_value(hex32(v)[i]);
            d(2) * 0x1000_0000 + d(3) * 0x100_0000 + d(4) * 0x10_0000 + d(5) * 0x1_0000 + d(6)
                * 0x1000 + d(7) * 0x100 + d(8) * 0x10 + d(9) == v
        }),
        forall|i: int| 2 <= i < 10 ==> 0 <= digit_value(#[trigger] hex32(v)[i]) < 16,
{
    reveal_strlit("0x");
    let bytes = seq![
        (v / 0x100_0000) as u8,
        (v / 0x1_0000 % 0x100) as u8,
        (v / 0x100 % 0x100) as u8,
        (v % 0x100) as u8,
    ];
    bytes_are_written_in_hexadecimal(bytes);
    let t = hex(bytes);
    assert(forall|i: int| 2 <= i < 10 ==> #[trigger] hex32(v)[i] == t[i - 2]);
    assert(stand_for(t[2 * 0int], t[2 * 0int + 1], bytes[0]));
    assert(stand_for(t[2 * 1int], t[2 * 1int + 1], bytes[1]));
    assert(stand_for(t[2 * 2int], t[2 * 2int + 1], bytes[2]));
    assert(stand_for(t[2 * 3int], t[2 * 3int + 1], bytes[3]));
    assert forall|i: int| 2 <= i < 10 implies 0 <= digit_value(#[trigger] hex32(v)[i]) < 16 by {
        let k = (i - 2) / 2;
        assert(bytes[k] == bytes[k]);
        assert(i - 2 == 2 * k || i - 2 == 2 * k + 1);
    }
}

/// A mode is written as ten characters. The first is `d` for a directory, whose mode has a 4
/// in its first four bits. The others are `r`, `w` and `x` in turn where the bit is set, from
/// bit 8 down to bit 0, and `-` where it is not.
pub proof fn modes_are_written_bit_by_bit(inode: Inode)
    ensures
        mode_text(inode).len() == 10,
        mode_text(inode)[0] == if inode.mode_spec() / 0x1000 == 4 {
            'd'
        } else {
            '-'
        },
        forall|i: int|
            0 <= i < 9 ==> #[trigger] mode_text(inode)[i + 1] == if inode.mode_spec() as int / (
            pow2((8 - i) as nat) as int) % 2 == 0 {
                '-'
            } else if i % 3 == 0 {
                'r'
            } else if i % 3 == 1 {
                'w'
            } else {
                'x'
            },
{
    inode_says_what_it_holds(inode);
    let mode = inode.mode_spec();
    assert forall|i: int| 0 <= i < 9 implies #[trigger] mode_text(inode)[i + 1] == if mode as int / (
    pow2((8 - i) as nat) as int) % 2 == 0 {
        '-'
    } else if i % 3 == 0 {
        'r'
    } else if i % 3 == 1 {
        'w'
    } else {
        'x'
    } by {
        let shift = (8 - i) as u16;
        vstd::bits::lemma_u16_shr_is_div(mode, shift);
        vstd::arithmetic::power2::lemma_pow2_pos(shift as nat);
        assert((mode >> (8 - i)) == mode >> shift);
    }
}

/// A line of a listing has the mode, the size, the time and the name, with a blank between
/// them, and the size has blanks before it where it is shorter than eight characters.
pub proof fn lines_have_their_parts(
    mode: Seq<char>,
    size: Seq<char>,
    time: Seq<char>,
    name: Seq<char>,
)
    ensures
        ({
            let blanks = if size.len() < 8 {
                8 - size.len()
            } else {
                0
            };
            let line = listing_line(mode, size, time, name);
            let a = mode.len() + 1;
            let b = a + blanks + size.len() + 1;
            let c = b + time.len() + 1;
            &&& line.len() == c + name.len()
            &&& line.subrange(0, mode.len() as int) == mode
            &&& line[a - 1] == ' '
            &&& forall|i: int| a <= i < a + blanks ==> line[i] == ' '
            &&& line.subrange(a + blanks, b - 1) == size
            &&& line[b - 1] == ' '
            &&& line.subrange(b, c - 1) == time
            &&& line[c - 1] == ' '
            &&& line.subrange(c, c + name.len()) == name
        }),
{
    let blanks = if size.len() < 8 {
        8 - size.len()
    } else {
        0
    };
    let line = listing_line(mode, size, time, name);
    let a = mode.len() + 1;
    let b = a + blanks + size.len() + 1;
    let c = b + time.len() + 1;
    assert(padded(size, 8).len() == blanks + size.len());
    assert(line.subrange(0, mode.len() as int) =~= mode);
    assert(line.subrange(a + blanks, b - 1) =~= size);
    assert(line.subrange(b, c - 1) =~= time);
    assert(line.subrange(c, c + name.len()) =~= name);
}

/// How many bytes a unit has.
pub open spec fn bytes_of(unit: SizeUnit) -> int {
    match unit {
        SizeUnit::Byte => 1,
        SizeUnit::Kibibyte => 0x400,
        SizeUnit::Mebibyte => 0x10_0000,
        SizeUnit::Gibibyte => 0x4000_0000,
    }
}

/// A size is written in the largest unit of which it holds at least one, and a size of 0 in
/// bytes.
pub proof fn sizes_are_written_in_the_largest_unit(size: int, unit: SizeUnit)
    requires
        0 < size,
    ensures
        bytes_of(unit_of(size)) <= size,
        bytes_of(unit) <= size ==> bytes_of(unit) <= bytes_of(unit_of(size)),
        unit_of(0) == SizeUnit::Byte,
{
}

/// What starts with `http` is an address, and nothing else is. The parts of a URL are taken
/// over as they are, and so is the reason why there are none.
pub proof fn addresses_start_with_http(text: Seq<char>, endpoint: Seq<char>, path: Seq<char>)
    ensures
        is_address(text) <==> text.len() >= 4 && text.subrange(0, 4) == seq!['h', 't', 't', 'p'],
        remote(Ok((endpoint, path))) == Ok::<SourceView, ErrorView>(
            SourceView::Remote { endpoint, path },
        ),
        remote(Err(text)) == Err::<SourceView, ErrorView>(ErrorView::InvalidUrl(text)),
{
    if text.len() >= 4 {
        let start = text.subrange(0, 4);
        assert(start[0] == text[0] && start[1] == text[1] && start[2] == text[2] && start[3]
            == text[3]);
        if is_address(text) {
            assert(start =~= seq!['h', 't', 't', 'p']);
        }
    }
}

} // verus!
