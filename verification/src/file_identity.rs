//! How the identity of a file is put in words.

use crate::text::push_char;
use vstd::arithmetic::power::{lemma_pow0, lemma_pow1, lemma_pow_adds, pow};
use vstd::prelude::*;
use vstd::string::*;

verus! {

/// The hexadecimal digit of `d`, in lower case.
pub open spec fn hex_digit(d: nat) -> char {
    if d == 0 {
        '0'
    } else if d == 1 {
        '1'
    } else if d == 2 {
        '2'
    } else if d == 3 {
        '3'
    } else if d == 4 {
        '4'
    } else if d == 5 {
        '5'
    } else if d == 6 {
        '6'
    } else if d == 7 {
        '7'
    } else if d == 8 {
        '8'
    } else if d == 9 {
        '9'
    } else if d == 10 {
        'a'
    } else if d == 11 {
        'b'
    } else if d == 12 {
        'c'
    } else if d == 13 {
        'd'
    } else if d == 14 {
        'e'
    } else {
        'f'
    }
}

/// The last `width` hexadecimal digits of `n`.
pub open spec fn hex(n: nat, width: nat) -> Seq<char>
    decreases width,
{
    if width == 0 {
        Seq::empty()
    } else {
        hex(n / 16, (width - 1) as nat).push(hex_digit(n % 16))
    }
}

/// Appends the last `width` hexadecimal digits of `n` to `to`.
fn append_hex(to: &mut String, n: u64, width: usize)
    ensures
        final(to)@ == old(to)@ + hex(n as nat, width as nat),
    decreases width,
{
    if width > 0 {
        append_hex(to, n / 16, width - 1);
        let d: u64 = n % 16;
        let c = match d {
            0 => '0',
            1 => '1',
            2 => '2',
            3 => '3',
            4 => '4',
            5 => '5',
            6 => '6',
            7 => '7',
            8 => '8',
            9 => '9',
            10 => 'a',
            11 => 'b',
            12 => 'c',
            13 => 'd',
            14 => 'e',
            _ => 'f',
        };
        push_char(to, c);
        assert(c == hex_digit((n % 16) as nat));
    }
    assert(to@ =~= old(to)@ + hex(n as nat, width as nat));
}

/// The identity of a file by its device and its inode.
pub fn unix_file_identity(device: u64, inode: u64) -> (identity: String)
    ensures
        identity@ == "unix:"@ + hex(device as nat, 16) + ":"@ + hex(inode as nat, 16),
{
    let mut identity = String::new();
    identity.append("unix:");
    append_hex(&mut identity, device, 16);
    identity.append(":");
    append_hex(&mut identity, inode, 16);
    assert(identity@ =~= "unix:"@ + hex(device as nat, 16) + ":"@ + hex(inode as nat, 16));
    identity
}

/// The identity of a file by its volume's serial number and the two halves of its index.
pub fn windows_file_identity(volume: u32, index_high: u32, index_low: u32) -> (identity: String)
    ensures
        identity@ == "windows:"@ + hex(volume as nat, 8) + ":"@ + hex(
            (index_high * 0x1_0000_0000 + index_low) as nat,
            16,
        ),
{
    let index: u64 = index_high as u64 * 0x1_0000_0000 + index_low as u64;
    let mut identity = String::new();
    identity.append("windows:");
    append_hex(&mut identity, volume as u64, 8);
    identity.append(":");
    append_hex(&mut identity, index, 16);
    assert(identity@ =~= "windows:"@ + hex(volume as nat, 8) + ":"@ + hex(index as nat, 16));
    identity
}

/// `width` hexadecimal digits, all of them.
proof fn lemma_hex_length(n: nat, width: nat)
    ensures
        hex(n, width).len() == width,
    decreases width,
{
    if width > 0 {
        lemma_hex_length(n / 16, (width - 1) as nat);
    }
}

/// Digits of different numbers differ.
proof fn lemma_hex_digit(a: nat, b: nat)
    requires
        a < 16,
        b < 16,
        hex_digit(a) == hex_digit(b),
    ensures
        a == b,
{
}

/// Numbers with the same `width` digits that need no more digits are the same.
proof fn lemma_hex_injective(a: nat, b: nat, width: nat)
    requires
        a < pow(16, width),
        b < pow(16, width),
        hex(a, width) == hex(b, width),
    ensures
        a == b,
    decreases width,
{
    if width == 0 {
        lemma_pow0(16);
    } else {
        let w = (width - 1) as nat;
        lemma_pow_adds(16, 1, w);
        lemma_pow1(16);
        assert(pow(16, width) == 16 * pow(16, w));
        lemma_hex_length(a / 16, w);
        lemma_hex_length(b / 16, w);
        let x = hex(a / 16, w);
        let y = hex(b / 16, w);
        assert(hex(a, width).last() == hex_digit(a % 16));
        assert(hex(b, width).last() == hex_digit(b % 16));
        assert(hex(a, width).drop_last() =~= x);
        assert(hex(b, width).drop_last() =~= y);
        lemma_hex_digit(a % 16, b % 16);
        lemma_hex_injective(a / 16, b / 16, w);
    }
}

/// A file's device and inode are read off its identity.
pub proof fn unix_identities_differ(device: u64, inode: u64, other_device: u64, other_inode: u64)
    requires
        "unix:"@ + hex(device as nat, 16) + ":"@ + hex(inode as nat, 16) == "unix:"@ + hex(
            other_device as nat,
            16,
        ) + ":"@ + hex(other_inode as nat, 16),
    ensures
        device == other_device,
        inode == other_inode,
{
    let a = hex(device as nat, 16);
    let b = hex(inode as nat, 16);
    let c = hex(other_device as nat, 16);
    let d = hex(other_inode as nat, 16);
    lemma_hex_length(device as nat, 16);
    lemma_hex_length(inode as nat, 16);
    lemma_hex_length(other_device as nat, 16);
    lemma_hex_length(other_inode as nat, 16);
    let left = "unix:"@ + a + ":"@ + b;
    let right = "unix:"@ + c + ":"@ + d;
    let n = "unix:"@.len() as int;
    let m = n + 16 + ":"@.len();
    assert(left.subrange(n, n + 16) =~= a);
    assert(right.subrange(n, n + 16) =~= c);
    assert(left.subrange(m, m + 16) =~= b);
    assert(right.subrange(m, m + 16) =~= d);
    assert(pow(16, 16) == 0x1_0000_0000_0000_0000) by {
        reveal_with_fuel(pow, 17);
    }
    lemma_hex_injective(device as nat, other_device as nat, 16);
    lemma_hex_injective(inode as nat, other_inode as nat, 16);
}

/// A file's volume and index are read off its identity.
pub proof fn windows_identities_differ(
    volume: u32,
    index_high: u32,
    index_low: u32,
    other_volume: u32,
    other_index_high: u32,
    other_index_low: u32,
)
    requires
        "windows:"@ + hex(volume as nat, 8) + ":"@ + hex(
            (index_high * 0x1_0000_0000 + index_low) as nat,
            16,
        ) == "windows:"@ + hex(other_volume as nat, 8) + ":"@ + hex(
            (other_index_high * 0x1_0000_0000 + other_index_low) as nat,
            16,
        ),
    ensures
        volume == other_volume,
        index_high == other_index_high,
        index_low == other_index_low,
{
    let index = (index_high * 0x1_0000_0000 + index_low) as nat;
    let other_index = (other_index_high * 0x1_0000_0000 + other_index_low) as nat;
    let a = hex(volume as nat, 8);
    let b = hex(index, 16);
    let c = hex(other_volume as nat, 8);
    let d = hex(other_index, 16);
    lemma_hex_length(volume as nat, 8);
    lemma_hex_length(index, 16);
    lemma_hex_length(other_volume as nat, 8);
    lemma_hex_length(other_index, 16);
    let left = "windows:"@ + a + ":"@ + b;
    let right = "windows:"@ + c + ":"@ + d;
    let n = "windows:"@.len() as int;
    let m = n + 8 + ":"@.len();
    assert(left.subrange(n, n + 8) =~= a);
    assert(right.subrange(n, n + 8) =~= c);
    assert(left.subrange(m, m + 16) =~= b);
    assert(right.subrange(m, m + 16) =~= d);
    assert(pow(16, 8) == 0x1_0000_0000 && pow(16, 16) == 0x1_0000_0000_0000_0000) by {
        reveal_with_fuel(pow, 17);
    }
    lemma_hex_injective(volume as nat, other_volume as nat, 8);
    lemma_hex_injective(index, other_index, 16);
}

} // verus!
