//! HID boot-keyboard report encoding.
//!
//! A report is one modifier bitfield plus six regular keycode slots,
//! zero-padded. Modifier usages (0xE0..=0xE7) are packed into the
//! bitfield; regular keycodes fill the slots in the order they are held;
//! anything beyond the sixth regular keycode is silently dropped — a
//! documented limit of the boot protocol, not an error.

use vstd::prelude::*;

verus! {

/// Number of regular-keycode slots in a boot-protocol report.
pub const REPORT_KEYS: usize = 6;

/// Whether a keycode is one of the eight modifiers.
pub open spec fn is_modifier(k: u8) -> bool {
    0xE0 <= k && k <= 0xE7
}

/// The bit a modifier keycode occupies in the modifier byte; zero for a
/// regular keycode.
pub open spec fn modifier_mask(k: u8) -> u8 {
    if is_modifier(k) {
        1u8 << (k - 0xE0) as u8
    } else {
        0u8
    }
}

/// The modifier byte of a keycode sequence: the or of all its modifier
/// masks.
pub open spec fn spec_modifiers(ks: Seq<u8>) -> u8
    decreases ks.len(),
{
    if ks.len() == 0 {
        0u8
    } else {
        spec_modifiers(ks.drop_last()) | modifier_mask(ks.last())
    }
}

/// The non-modifier keycodes of a sequence, in order.
pub open spec fn regular_keys(ks: Seq<u8>) -> Seq<u8>
    decreases ks.len(),
{
    if ks.len() == 0 {
        Seq::empty()
    } else {
        let head = regular_keys(ks.drop_last());
        if is_modifier(ks.last()) {
            head
        } else {
            head.push(ks.last())
        }
    }
}

/// The regular keycodes that fit in the report: the first six, in order,
/// the rest dropped.
pub open spec fn kept_keys(ks: Seq<u8>) -> Seq<u8> {
    let reg = regular_keys(ks);
    if reg.len() <= REPORT_KEYS { reg } else { reg.take(REPORT_KEYS as int) }
}

/// Six key slots: `s` (at most six keycodes) zero-padded to length six.
pub open spec fn padded(s: Seq<u8>) -> Seq<u8> {
    s + Seq::new((REPORT_KEYS - s.len()) as nat, |i: int| 0u8)
}

/// What the encoder produces for a keycode sequence: modifier byte and
/// padded key slots.
pub open spec fn spec_report(ks: Seq<u8>) -> (u8, Seq<u8>) {
    (spec_modifiers(ks), padded(kept_keys(ks)))
}

/// A boot-protocol keyboard report: modifier byte plus six key slots.
pub struct HidReport {
    modifiers: u8,
    keys: Vec<u8>,
}

impl View for HidReport {
    type V = (u8, Seq<u8>);

    closed spec fn view(&self) -> (u8, Seq<u8>) {
        (self.modifiers, self.keys@)
    }
}

impl HidReport {
    /// The key slots are always exactly six.
    pub open spec fn wf(self) -> bool {
        self@.1.len() == REPORT_KEYS
    }

    /// The all-released report: no modifiers, empty slots.
    pub fn empty() -> (rep: HidReport)
        ensures
            rep.wf(),
            rep@ == spec_report(Seq::<u8>::empty()),
    {
        let mut keys: Vec<u8> = Vec::new();
        let mut i: usize = 0;
        while i < REPORT_KEYS
            invariant
                i <= REPORT_KEYS,
                keys@.len() == i,
                forall|j: int| 0 <= j < i ==> (#[trigger] keys@[j]) == 0,
            decreases REPORT_KEYS - i,
        {
            keys.push(0);
            i += 1;
        }
        let rep = HidReport { modifiers: 0, keys };
        proof {
            assert(regular_keys(Seq::<u8>::empty()) =~= Seq::<u8>::empty());
            assert(rep@.1 =~= padded(kept_keys(Seq::<u8>::empty())));
        }
        rep
    }

    /// Encode the held keycodes: modifiers into the bitfield, the first
    /// six regular keycodes into the slots in held order, the rest
    /// silently dropped.
    pub fn encode(keycodes: &Vec<u8>) -> (rep: HidReport)
        ensures
            rep.wf(),
            rep@ == spec_report(keycodes@),
    {
        let mut modifiers: u8 = 0;
        let mut keys: Vec<u8> = Vec::new();
        let n = keycodes.len();
        let mut i: usize = 0;
        while i < n
            invariant
                i <= n,
                n == keycodes@.len(),
                keys@.len() <= REPORT_KEYS,
                modifiers == spec_modifiers(keycodes@.subrange(0, i as int)),
                keys@ == kept_keys(keycodes@.subrange(0, i as int)),
            decreases n - i,
        {
            let k = keycodes[i];
            let ghost pre = keycodes@.subrange(0, i as int);
            let ghost cur = keycodes@.subrange(0, i as int + 1);
            proof {
                assert(cur.drop_last() =~= pre);
                assert(cur.last() == keycodes@[i as int]);
            }
            if 0xE0 <= k && k <= 0xE7 {
                modifiers = modifiers | (1u8 << (k - 0xE0));
                proof {
                    assert(regular_keys(cur) == regular_keys(pre));
                }
            } else {
                proof {
                    assert(modifier_mask(k) == 0u8);
                    assert(modifiers | 0u8 == modifiers) by (bit_vector);
                    assert(regular_keys(cur) == regular_keys(pre).push(k));
                }
                if keys.len() < REPORT_KEYS {
                    keys.push(k);
                    proof {
                        if regular_keys(pre).len() <= REPORT_KEYS {
                            assert(kept_keys(pre) == regular_keys(pre));
                            if regular_keys(cur).len() <= REPORT_KEYS {
                                assert(kept_keys(cur) == regular_keys(cur));
                            } else {
                                assert(false);
                            }
                        } else {
                            assert(kept_keys(pre).len() == REPORT_KEYS);
                            assert(false);
                        }
                    }
                } else {
                    proof {
                        assert(kept_keys(pre).len() == REPORT_KEYS);
                        assert(regular_keys(pre).len() >= REPORT_KEYS);
                        assert(regular_keys(cur).len() > REPORT_KEYS);
                        assert(regular_keys(cur).take(REPORT_KEYS as int)
                            =~= regular_keys(pre).take(REPORT_KEYS as int));
                        if regular_keys(pre).len() == REPORT_KEYS {
                            assert(regular_keys(pre).take(REPORT_KEYS as int)
                                =~= regular_keys(pre));
                        }
                    }
                }
            }
            i += 1;
        }
        proof {
            assert(keycodes@.subrange(0, n as int) =~= keycodes@);
        }
        let ghost kept = kept_keys(keycodes@);
        while keys.len() < REPORT_KEYS
            invariant
                kept.len() <= keys@.len() <= REPORT_KEYS,
                keys@.subrange(0, kept.len() as int) == kept,
                forall|j: int| kept.len() <= j < keys@.len() ==> (#[trigger] keys@[j]) == 0,
            decreases REPORT_KEYS - keys.len(),
        {
            keys.push(0);
            proof {
                assert(keys@.subrange(0, kept.len() as int) =~= kept);
            }
        }
        proof {
            assert(keys@ =~= padded(kept));
        }
        HidReport { modifiers, keys }
    }

    /// Byte-exact comparison with another report, deciding whether a
    /// retransmission is needed.
    pub fn same_as(&self, other: &HidReport) -> (r: bool)
        requires
            self.wf(),
            other.wf(),
        ensures
            r == (self@ == other@),
    {
        if self.modifiers != other.modifiers {
            return false;
        }
        let mut i: usize = 0;
        while i < REPORT_KEYS
            invariant
                i <= REPORT_KEYS,
                self.wf(),
                other.wf(),
                self@.0 == other@.0,
                forall|j: int| 0 <= j < i ==> (#[trigger] self@.1[j]) == other@.1[j],
            decreases REPORT_KEYS - i,
        {
            if self.keys[i] != other.keys[i] {
                return false;
            }
            i += 1;
        }
        proof {
            assert(self@.1 =~= other@.1);
        }
        true
    }

    /// The wire form: modifier byte, one reserved zero byte, six key
    /// slots.
    pub fn bytes(&self) -> (b: Vec<u8>)
        requires
            self.wf(),
        ensures
            b@.len() == 8,
            b@[0] == self@.0,
            b@[1] == 0,
            forall|j: int| 2 <= j < 8 ==> (#[trigger] b@[j]) == self@.1[j - 2],
    {
        let mut b: Vec<u8> = Vec::new();
        b.push(self.modifiers);
        b.push(0);
        let mut i: usize = 0;
        while i < REPORT_KEYS
            invariant
                i <= REPORT_KEYS,
                self.wf(),
                b@.len() == i + 2,
                b@[0] == self@.0,
                b@[1] == 0,
                forall|j: int| 2 <= j < i + 2 ==> (#[trigger] b@[j]) == self@.1[j - 2],
            decreases REPORT_KEYS - i,
        {
            b.push(self.keys[i]);
            i += 1;
        }
        b
    }
}

} // verus!
