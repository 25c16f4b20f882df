//! Which keys and mouse buttons are down.

use vstd::prelude::*;

verus! {

/// The keys and mouse buttons that are down, one bit each.
pub struct InputState {
    keys_down: [u64; 4],
    mouse_down: u64,
}

/// Whether a bit of a word is set.
pub closed spec fn bit(word: u64, b: u64) -> bool {
    (word >> b) & 1 != 0
}

/// Reads a bit.
fn get_bit(word: u64, b: u64) -> (r: bool)
    requires
        b < 64,
    ensures
        r == bit(word, b),
{
    (word >> b) & 1 != 0
}

/// Sets or clears a bit.
fn with_bit(word: u64, b: u64, on: bool) -> (r: u64)
    requires
        b < 64,
    ensures
        bit(r, b) == on,
        forall|c: u64| c < 64 && c != b ==> #[trigger] bit(r, c) == bit(word, c),
{
    let r: u64 = if on {
        word | (1u64 << b)
    } else {
        word & !(1u64 << b)
    };
    proof {
        if on {
            assert(((word | (1u64 << b)) >> b) & 1 != 0) by (bit_vector)
                requires
                    b < 64,
            ;
            assert forall|c: u64| c < 64 && c != b implies #[trigger] bit(r, c) == bit(word, c) by {
                assert((((word | (1u64 << b)) >> c) & 1) == ((word >> c) & 1)) by (bit_vector)
                    requires
                        b < 64,
                        c < 64,
                        c != b,
                ;
            }
        } else {
            assert(((word & !(1u64 << b)) >> b) & 1 == 0) by (bit_vector)
                requires
                    b < 64,
            ;
            assert forall|c: u64| c < 64 && c != b implies #[trigger] bit(r, c) == bit(word, c) by {
                assert((((word & !(1u64 << b)) >> c) & 1) == ((word >> c) & 1)) by (bit_vector)
                    requires
                        b < 64,
                        c < 64,
                        c != b,
                ;
            }
        }
    }
    r
}

impl InputState {
    /// Whether the key with a code is down.
    pub closed spec fn key_down(self, key: u8) -> bool {
        bit(self.keys_down@[key as int / 64], (key % 64) as u64)
    }

    /// Whether a mouse button is down. Only the first 64 buttons are kept track of.
    pub closed spec fn button_down(self, btn: u16) -> bool {
        btn < 64 && bit(self.mouse_down, btn as u64)
    }

    /// Nothing is down.
    pub fn new() -> (r: InputState)
        ensures
            forall|key: u8| !#[trigger] r.key_down(key),
            forall|btn: u16| !#[trigger] r.button_down(btn),
    {
        proof {
            assert forall|b: u64| !#[trigger] bit(0, b) by {
                assert((0u64 >> b) & 1 == 0) by (bit_vector);
            }
        }
        InputState { keys_down: [0, 0, 0, 0], mouse_down: 0 }
    }

    /// Note that a key went down or up.
    pub fn set_key_down(&mut self, key: u8, down: bool)
        ensures
            final(self).key_down(key) == down,
            forall|k: u8| k != key ==> #[trigger] final(self).key_down(k) == old(self).key_down(k),
            forall|b: u16| #[trigger] final(self).button_down(b) == old(self).button_down(b),
    {
        let i: usize = (key / 64) as usize;
        let word: u64 = with_bit(self.keys_down[i], (key % 64) as u64, down);
        self.keys_down[i] = word;
        proof {
            assert forall|k: u8| k != key implies #[trigger] self.key_down(k) == old(self).key_down(
                k,
            ) by {
                if k as int / 64 == i {
                    assert((k % 64) as u64 != (key % 64) as u64);
                }
            }
        }
    }

    /// Note that a mouse button went down or up.
    pub fn set_mouse_down(&mut self, btn: u16, down: bool)
        ensures
            btn < 64 ==> final(self).button_down(btn) == down,
            forall|b: u16|
                b != btn ==> #[trigger] final(self).button_down(b) == old(self).button_down(b),
            forall|k: u8| #[trigger] final(self).key_down(k) == old(self).key_down(k),
    {
        if btn < 64 {
            self.mouse_down = with_bit(self.mouse_down, btn as u64, down);
        }
    }

    /// Whether the key with a code is down.
    pub fn key(&self, key: u8) -> (r: bool)
        ensures
            r == self.key_down(key),
    {
        get_bit(self.keys_down[(key / 64) as usize], (key % 64) as u64)
    }

    /// Whether a mouse button is down. Buttons that are not kept track of never are.
    pub fn mouse(&self, btn: u16) -> (r: bool)
        ensures
            r == self.button_down(btn),
            btn >= 64 ==> !r,
    {
        if btn >= 64 {
            false
        } else {
            get_bit(self.mouse_down, btn as u64)
        }
    }

    /// Whether one of the control keys is down, given their codes.
    pub fn ctrl(&self, left: u8, right: u8) -> (r: bool)
        ensures
            r == (self.key_down(left) || self.key_down(right)),
    {
        self.key(left) || self.key(right)
    }

    /// Whether one of the shift keys is down, given their codes.
    pub fn shift(&self, left: u8, right: u8) -> (r: bool)
        ensures
            r == (self.key_down(left) || self.key_down(right)),
    {
        self.key(left) || self.key(right)
    }
}

} // verus!
