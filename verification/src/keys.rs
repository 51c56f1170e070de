//! Decoding of the raw bytes a terminal sends into key presses.

use vstd::prelude::*;

verus! {

/// One key press, as far as the temple cares.
#[derive(Clone, Copy, Debug, PartialEq, Eq, Structural)]
pub enum Key {
    Up,
    Down,
    Left,
    Right,
    Space,
    Enter,
    Quit,
    Other,
}

/// The key named by the final byte of an `ESC [ x` sequence.
pub open spec fn arrow_key(b: u8) -> Key {
    if b == 0x41 {
        Key::Up
    } else if b == 0x42 {
        Key::Down
    } else if b == 0x43 {
        Key::Right
    } else if b == 0x44 {
        Key::Left
    } else {
        Key::Other
    }
}

/// The key named by a single byte that does not start an arrow sequence.
pub open spec fn byte_key(b: u8) -> Key {
    if b == 0x20 {
        Key::Space
    } else if b == 0x0d || b == 0x0a {
        Key::Enter
    } else if b == 0x03 || b == 0x04 || b == 0x71 {
        Key::Quit
    } else if b == 0x77 || b == 0x6b {
        Key::Up
    } else if b == 0x73 || b == 0x6a {
        Key::Down
    } else if b == 0x61 || b == 0x68 {
        Key::Left
    } else if b == 0x64 || b == 0x6c {
        Key::Right
    } else {
        Key::Other
    }
}

/// Whether the bytes start with a complete `ESC [ x` sequence.
pub open spec fn starts_arrow(b: Seq<u8>) -> bool {
    b.len() > 2 && b[0] == 0x1b && b[1] == 0x5b
}

/// The keys that a buffer of terminal input stands for, read left to right:
/// `ESC [ x` (with `x` present) is one key, every other byte is one key.
pub open spec fn decode_keys(b: Seq<u8>) -> Seq<Key>
    decreases b.len(),
{
    if b.len() == 0 {
        seq![]
    } else if starts_arrow(b) {
        seq![arrow_key(b[2])] + decode_keys(b.skip(3))
    } else {
        seq![byte_key(b[0])] + decode_keys(b.skip(1))
    }
}

fn arrow_key_of(b: u8) -> (k: Key)
    ensures
        k == arrow_key(b),
{
    if b == 0x41 {
        Key::Up
    } else if b == 0x42 {
        Key::Down
    } else if b == 0x43 {
        Key::Right
    } else if b == 0x44 {
        Key::Left
    } else {
        Key::Other
    }
}

fn byte_key_of(b: u8) -> (k: Key)
    ensures
        k == byte_key(b),
{
    match b {
        0x20 => Key::Space,
        0x0d | 0x0a => Key::Enter,
        0x03 | 0x04 | 0x71 => Key::Quit,
        0x77 | 0x6b => Key::Up,
        0x73 | 0x6a => Key::Down,
        0x61 | 0x68 => Key::Left,
        0x64 | 0x6c => Key::Right,
        _ => Key::Other,
    }
}

/// Decodes terminal input into key presses. Arrow keys arrive as the three
/// bytes `ESC [ A..D`; WASD and hjkl walk too.
pub fn parse_keys(buf: &[u8]) -> (keys: Vec<Key>)
    ensures
        keys@ == decode_keys(buf@),
{
    let mut keys: Vec<Key> = Vec::new();
    let mut i: usize = 0;
    proof {
        assert(buf@.skip(0) =~= buf@);
        assert(keys@ + decode_keys(buf@) =~= decode_keys(buf@));
    }
    while i < buf.len()
        invariant
            i <= buf@.len(),
            keys@ + decode_keys(buf@.skip(i as int)) == decode_keys(buf@),
        decreases buf@.len() - i,
    {
        let ghost rest = buf@.skip(i as int);
        if buf[i] == 0x1b && buf.len() - i > 2 && buf[i + 1] == 0x5b {
            keys.push(arrow_key_of(buf[i + 2]));
            proof {
                assert(starts_arrow(rest));
                assert(rest.skip(3) =~= buf@.skip(i + 3));
                assert(keys@ + decode_keys(buf@.skip(i + 3)) =~= keys@.drop_last() + decode_keys(rest));
            }
            i = i + 3;
        } else {
            keys.push(byte_key_of(buf[i]));
            proof {
                assert(!starts_arrow(rest));
                assert(rest.skip(1) =~= buf@.skip(i + 1));
                assert(keys@ + decode_keys(buf@.skip(i + 1)) =~= keys@.drop_last() + decode_keys(rest));
            }
            i = i + 1;
        }
    }
    proof {
        assert(buf@.skip(i as int) =~= Seq::<u8>::empty());
        assert(keys@ + decode_keys(buf@.skip(i as int)) =~= keys@);
    }
    keys
}

/// What one arrow sequence or one letter in front of the rest of the input decodes to.
proof fn lemma_first_of(first: Seq<u8>, rest: Seq<u8>)
    requires
        first.len() == 3 && starts_arrow(first) || first.len() == 1 && first[0] != 0x1b,
    ensures
        decode_keys(first + rest) == seq![if first.len() == 3 {
            arrow_key(first[2])
        } else {
            byte_key(first[0])
        }] + decode_keys(rest),
{
    let b = first + rest;
    assert(b.skip(first.len() as int) =~= rest);
    assert(b[0] == first[0]);
    if first.len() == 3 {
        assert(b[1] == first[1] && b[2] == first[2]);
    }
}

/// Each arrow key walks its own way, the same way as its letters do: up is
/// `ESC [ A`, `w` and `k`; down is `ESC [ B`, `s` and `j`; right is
/// `ESC [ C`, `d` and `l`; left is `ESC [ D`, `a` and `h`; whatever follows.
pub proof fn law_arrows_walk_like_letters(rest: Seq<u8>)
    ensures
        decode_keys(seq![0x1bu8, 0x5bu8, 0x41u8] + rest) == seq![Key::Up] + decode_keys(rest),
        decode_keys(seq![0x1bu8, 0x5bu8, 0x42u8] + rest) == seq![Key::Down] + decode_keys(rest),
        decode_keys(seq![0x1bu8, 0x5bu8, 0x43u8] + rest) == seq![Key::Right] + decode_keys(rest),
        decode_keys(seq![0x1bu8, 0x5bu8, 0x44u8] + rest) == seq![Key::Left] + decode_keys(rest),
        decode_keys(seq![0x77u8] + rest) == seq![Key::Up] + decode_keys(rest),
        decode_keys(seq![0x6bu8] + rest) == seq![Key::Up] + decode_keys(rest),
        decode_keys(seq![0x73u8] + rest) == seq![Key::Down] + decode_keys(rest),
        decode_keys(seq![0x6au8] + rest) == seq![Key::Down] + decode_keys(rest),
        decode_keys(seq![0x64u8] + rest) == seq![Key::Right] + decode_keys(rest),
        decode_keys(seq![0x6cu8] + rest) == seq![Key::Right] + decode_keys(rest),
        decode_keys(seq![0x61u8] + rest) == seq![Key::Left] + decode_keys(rest),
        decode_keys(seq![0x68u8] + rest) == seq![Key::Left] + decode_keys(rest),
{
    lemma_first_of(seq![0x1bu8, 0x5bu8, 0x41u8], rest);
    lemma_first_of(seq![0x1bu8, 0x5bu8, 0x42u8], rest);
    lemma_first_of(seq![0x1bu8, 0x5bu8, 0x43u8], rest);
    lemma_first_of(seq![0x1bu8, 0x5bu8, 0x44u8], rest);
    lemma_first_of(seq![0x77u8], rest);
    lemma_first_of(seq![0x6bu8], rest);
    lemma_first_of(seq![0x73u8], rest);
    lemma_first_of(seq![0x6au8], rest);
    lemma_first_of(seq![0x64u8], rest);
    lemma_first_of(seq![0x6cu8], rest);
    lemma_first_of(seq![0x61u8], rest);
    lemma_first_of(seq![0x68u8], rest);
}

} // verus!
