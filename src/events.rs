use vstd::prelude::*;
use crate::resolve::digits_value;

verus! {

/// A bounded first-in first-out queue of captured register snapshots (as
/// JSON text); when full, the oldest entry gives way.
pub struct EventQueue {
    pub items: Vec<String>,
    pub capacity: usize,
}

pub open spec fn queue_wf(q: &EventQueue) -> bool {
    q.capacity > 0 && q.items@.len() <= q.capacity
}

/// The entries after pushing `e` onto `items` with room for `cap`.
pub open spec fn pushed(items: Seq<String>, e: String, cap: nat) -> Seq<String> {
    if items.len() >= cap {
        items.drop_first().push(e)
    } else {
        items.push(e)
    }
}

impl EventQueue {
    /// An empty queue for at most `capacity` entries (at least one).
    pub fn new(capacity: usize) -> (r: EventQueue)
        ensures
            queue_wf(&r),
            r.items@.len() == 0,
            r.capacity == if capacity == 0 {
                1
            } else {
                capacity
            },
    {
        EventQueue { items: Vec::new(), capacity: if capacity == 0 {
            1
        } else {
            capacity
        } }
    }

    /// Appends an entry, dropping the oldest when the queue is full.
    pub fn push(&mut self, e: String)
        requires
            queue_wf(old(self)),
        ensures
            queue_wf(final(self)),
            final(self).capacity == old(self).capacity,
            final(self).items@ == pushed(old(self).items@, e, old(self).capacity as nat),
    {
        if self.items.len() >= self.capacity {
            self.items.remove(0);
        }
        self.items.push(e);
        proof {
            assert(self.items@ =~= pushed(old(self).items@, e, old(self).capacity as nat));
        }
    }

    /// Takes every entry, oldest first, leaving the queue empty.
    pub fn drain(&mut self) -> (r: Vec<String>)
        requires
            queue_wf(old(self)),
        ensures
            queue_wf(final(self)),
            final(self).capacity == old(self).capacity,
            r@ == old(self).items@,
            final(self).items@.len() == 0,
    {
        let mut out: Vec<String> = Vec::new();
        std::mem::swap(&mut out, &mut self.items);
        out
    }
}

/// The position after every leading `0x` of `s`, from `i` on.
pub open spec fn after_hex_prefixes(s: Seq<char>, i: int) -> int
    decreases s.len() - i,
{
    if 0 <= i && i + 2 <= s.len() && s[i] == '0' && s[i + 1] == 'x' {
        after_hex_prefixes(s, i + 2)
    } else {
        i
    }
}

/// The address that a program counter written in hex stands for: hex
/// digits after any leading `0x`, fitting in 64 bits.
pub open spec fn pc_value(s: Seq<char>) -> Option<u64> {
    let i = after_hex_prefixes(s, 0);
    if i >= s.len() {
        None
    } else {
        match digits_value(s, i, s.len() as int, 16) {
            Some(v) => if v <= u64::MAX {
                Some(v as u64)
            } else {
                None
            },
            None => None,
        }
    }
}

/// Reads the program counter of a register snapshot, written in hex.
pub fn parse_pc(text: &str) -> (r: Option<u64>)
    ensures
        r == pc_value(text@),
{
    let s = crate::resolve::chars_of_text(text);
    let mut i: usize = 0;
    while s.len() - i >= 2 && s[i] == '0' && s[i + 1] == 'x'
        invariant
            i <= s@.len(),
            after_hex_prefixes(s@, i as int) == after_hex_prefixes(s@, 0),
        decreases s@.len() - i,
    {
        i += 2;
    }
    if i >= s.len() {
        return None;
    }
    crate::resolve::hex_digits_number(&s, i, s.len())
}

} // verus!
