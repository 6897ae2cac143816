//! Favicon support: URL construction for the browser's local favicon service
//! and the decoded-icon cache policy (load once, never retry, bounded size
//! with oldest-inserted eviction).
use vstd::prelude::*;
use crate::sample::{spec_with_scheme, with_scheme};
use crate::text::{decimal, push_char, push_decimal, push_str, str_eq};

verus! {

/// Decoded-icon cache capacity (host to image).
pub const CACHE_CAP: usize = 512;

/// Unreserved URL bytes (RFC 3986): `A-Z a-z 0-9 - _ . ~`.
pub open spec fn unreserved(b: u8) -> bool {
    (48 <= b <= 57) || (65 <= b <= 90) || (97 <= b <= 122) || b == 45 || b == 95 || b == 46
        || b == 126
}

/// The upper-case hexadecimal digit for a nibble.
pub open spec fn spec_hex_upper(n: u8) -> char {
    if n <= 9 {
        ((48 + n) as u8) as char
    } else {
        ((65 + (n - 10)) as u8) as char
    }
}

/// The encoding of one byte: itself when unreserved, else `%XY`.
pub open spec fn pct_byte(b: u8) -> Seq<char> {
    if unreserved(b) {
        seq![b as char]
    } else {
        seq!['%', spec_hex_upper(b / 16), spec_hex_upper(b % 16)]
    }
}

pub open spec fn pct_bytes(bs: Seq<u8>) -> Seq<char>
    decreases bs.len(),
{
    if bs.len() == 0 {
        Seq::<char>::empty()
    } else {
        pct_bytes(bs.drop_last()) + pct_byte(bs.last())
    }
}

pub open spec fn spec_percent_encode(s: Seq<char>) -> Seq<char> {
    pct_bytes(vstd::utf8::encode_utf8(s))
}

/// Upper-case hexadecimal digit of a nibble.
pub fn hex_upper(nibble: u8) -> (c: char)
    requires
        nibble <= 200,
    ensures
        c == spec_hex_upper(nibble),
{
    if nibble <= 9 {
        (48u8 + nibble) as char
    } else {
        (65u8 + (nibble - 10)) as char
    }
}

/// Percent-encode a string for use as a URL query value: every UTF-8 byte
/// outside the unreserved set becomes `%XY`, so `:` and `/` are encoded and a
/// scheme never surfaces as a literal `://`.
pub fn percent_encode(s: &str) -> (r: String)
    ensures
        r@ == spec_percent_encode(s@),
{
    let bytes = s.as_bytes();
    let mut out = String::new();
    let mut i: usize = 0;
    while i < bytes.len()
        invariant
            i <= bytes@.len(),
            bytes@ == vstd::utf8::encode_utf8(s@),
            out@ == pct_bytes(bytes@.take(i as int)),
        decreases bytes.len() - i,
    {
        let b = bytes[i];
        assert(bytes@.take(i + 1).drop_last() =~= bytes@.take(i as int));
        let unres = (48 <= b && b <= 57) || (65 <= b && b <= 90) || (97 <= b && b <= 122) || b
            == 45 || b == 95 || b == 46 || b == 126;
        if unres {
            push_char(&mut out, b as char);
        } else {
            assert(b >> 4 == b / 16) by (bit_vector);
            assert(b & 0x0f == b % 16) by (bit_vector);
            push_char(&mut out, '%');
            push_char(&mut out, hex_upper(b >> 4));
            push_char(&mut out, hex_upper(b & 0x0f));
        }
        assert(out@ =~= pct_bytes(bytes@.take(i + 1)));
        i += 1;
    }
    assert(bytes@.take(bytes@.len() as int) =~= bytes@);
    out
}

pub open spec fn spec_favicon_url(base: Seq<char>, host: Seq<char>, size: u16) -> Seq<char> {
    base + "?pageUrl="@ + spec_percent_encode(spec_with_scheme(host)) + "&size="@ + decimal(
        size as nat,
    )
}

/// The favicon URL for `host` at `size` (16, or 32 for HiDPI) against the
/// extension-origin `base`. The scheme is re-attached and the whole page URL
/// percent-encoded, so no literal `https://<host>` is ever produced.
pub fn favicon_url(base: &str, host: &str, size: u16) -> (r: String)
    ensures
        r@ == spec_favicon_url(base@, host@, size),
{
    let page_url = with_scheme(host);
    let enc = percent_encode(page_url.as_str());
    let mut r = String::new();
    push_str(&mut r, base);
    push_str(&mut r, "?pageUrl=");
    push_str(&mut r, enc.as_str());
    push_str(&mut r, "&size=");
    push_decimal(&mut r, size as u64);
    assert(r@ =~= spec_favicon_url(base@, host@, size));
    r
}

/// The load state of a host's favicon in the [`IconCache`].
#[derive(Clone, Debug, PartialEq, Eq)]
pub enum Slot<T> {
    /// A load is in flight: draw the fallback until it resolves.
    Loading,
    /// Decoded and ready to draw.
    Ready(T),
    /// The load errored; never retried while the slot lives.
    Failed,
}

/// A bounded, insertion-ordered host-to-icon cache with a load-once,
/// never-retry policy. Entries are kept oldest first; past `cap` entries the
/// oldest-inserted host is evicted.
#[derive(Debug)]
pub struct IconCache<T> {
    entries: Vec<(String, Slot<T>)>,
    cap: usize,
}

impl<T> IconCache<T> {
    /// The cache's entries, oldest first, as `(host, slot)` pairs. With
    /// [`Self::capacity`] this is the whole of the cache's state.
    pub closed spec fn view_entries(&self) -> Seq<(Seq<char>, Slot<T>)> {
        self.entries@.map_values(|e: (String, Slot<T>)| (e.0@, e.1))
    }

    /// The cache's capacity.
    pub closed spec fn capacity(&self) -> nat {
        self.cap as nat
    }

    /// Well-formedness: hosts are distinct, the capacity is positive, and the
    /// number of entries never exceeds it.
    pub open spec fn wf(&self) -> bool {
        &&& self.capacity() >= 1
        &&& self.view_entries().len() <= self.capacity()
        &&& forall|i: int, j: int|
            0 <= i < j < self.view_entries().len() ==> #[trigger] self.view_entries()[i].0
                != #[trigger] self.view_entries()[j].0
    }

    /// The slot held for `host`, if any.
    pub open spec fn slot(&self, host: Seq<char>) -> Option<Slot<T>> {
        if exists|i: int|
            0 <= i < self.view_entries().len() && (#[trigger] self.view_entries()[i]).0 == host {
            let i = choose|i: int|
                0 <= i < self.view_entries().len() && (#[trigger] self.view_entries()[i]).0
                    == host;
            Some(self.view_entries()[i].1)
        } else {
            None
        }
    }

    /// A cache holding at most `max(cap, 1)` hosts.
    pub fn new(cap: usize) -> (c: IconCache<T>)
        ensures
            c.wf(),
            c.view_entries().len() == 0,
            c.capacity() == if cap >= 1 {
                cap as nat
            } else {
                1
            },
    {
        let c = IconCache { entries: Vec::new(), cap: if cap >= 1 {
            cap
        } else {
            1
        } };
        assert(c.view_entries() =~= Seq::<(Seq<char>, Slot<T>)>::empty());
        c
    }

    fn find(&self, host: &str) -> (r: Option<usize>)
        ensures
            match r {
                Some(i) => i < self.view_entries().len() && self.view_entries()[i as int].0
                    == host@,
                None => forall|i: int|
                    0 <= i < self.view_entries().len() ==> (#[trigger] self.view_entries()[i]).0
                        != host@,
            },
    {
        let mut i: usize = 0;
        while i < self.entries.len()
            invariant
                i <= self.entries@.len(),
                forall|j: int|
                    0 <= j < i ==> (#[trigger] self.view_entries()[j]).0 != host@,
            decreases self.entries.len() - i,
        {
            if str_eq(self.entries[i].0.as_str(), host) {
                return Some(i);
            }
            i += 1;
        }
        None
    }

    /// Whether `host` has a slot (any state).
    pub fn contains(&self, host: &str) -> (r: bool)
        requires
            self.wf(),
        ensures
            r == (self.slot(host@) is Some),
    {
        match self.find(host) {
            Some(i) => true,
            None => false,
        }
    }

    /// The decoded image for `host`, iff its slot is `Ready`.
    pub fn ready(&self, host: &str) -> (r: Option<&T>)
        requires
            self.wf(),
        ensures
            match self.slot(host@) {
                Some(Slot::Ready(v)) => r == Some(&v),
                _ => r is None,
            },
    {
        match self.find(host) {
            Some(i) => {
                proof {
                    self.lemma_slot_at(host@, i as int);
                }
                match &self.entries[i].1 {
                    Slot::Ready(v) => Some(v),
                    _ => None,
                }
            },
            None => None,
        }
    }

    proof fn lemma_slot_at(&self, host: Seq<char>, i: int)
        requires
            self.wf(),
            0 <= i < self.view_entries().len(),
            self.view_entries()[i].0 == host,
        ensures
            self.slot(host) == Some(self.view_entries()[i].1),
    {
        let j = choose|j: int|
            0 <= j < self.view_entries().len() && (#[trigger] self.view_entries()[j]).0 == host;
        if j != i {
            if j < i {
                assert(self.view_entries()[j].0 != self.view_entries()[i].0);
            } else {
                assert(self.view_entries()[i].0 != self.view_entries()[j].0);
            }
        }
    }

    /// Reserve a `Loading` slot for `host`, evicting the oldest entry when at
    /// capacity. Returns `true` if a new load should start; `false` when a
    /// slot already exists (load-once, never-retry, including a `Failed` one).
    pub fn begin(&mut self, host: &str) -> (started: bool)
        requires
            old(self).wf(),
        ensures
            final(self).wf(),
            final(self).capacity() == old(self).capacity(),
            started == (old(self).slot(host@) is None),
            !started ==> final(self).view_entries() == old(self).view_entries(),
            started && old(self).view_entries().len() < old(self).capacity() ==> final(self).view_entries() == old(self).view_entries().push((host@, Slot::Loading)),
            started && old(self).view_entries().len() >= old(self).capacity() ==> final(self).view_entries() == old(self).view_entries().drop_first().push(
                (host@, Slot::Loading),
            ),
    {
        match self.find(host) {
            Some(i) => {
                proof {
                    self.lemma_slot_at(host@, i as int);
                }
                return false;
            },
            None => {},
        }
        let ghost old_entries = self.view_entries();
        if self.entries.len() >= self.cap {
            self.entries.remove(0);
            assert(self.view_entries() =~= old_entries.drop_first());
        }
        let ghost mid = self.view_entries();
        self.entries.push((host.to_owned(), Slot::Loading));
        assert(self.view_entries() =~= mid.push((host@, Slot::Loading)));
        assert forall|i: int, j: int|
            0 <= i < j < self.view_entries().len() implies #[trigger] self.view_entries()[i].0
            != #[trigger] self.view_entries()[j].0 by {
            if j == self.view_entries().len() - 1 {
                if old_entries.len() >= self.cap {
                    assert(mid[i] == old_entries[i + 1]);
                } else {
                    assert(mid[i] == old_entries[i]);
                }
            } else {
                if old_entries.len() >= self.cap {
                    assert(mid[i] == old_entries[i + 1]);
                    assert(mid[j] == old_entries[j + 1]);
                }
            }
        }
        true
    }

    /// Replace the slot of an existing host (no-op when absent).
    fn set_slot(&mut self, host: &str, slot: Slot<T>)
        requires
            old(self).wf(),
        ensures
            final(self).wf(),
            final(self).capacity() == old(self).capacity(),
            final(self).view_entries().len() == old(self).view_entries().len(),
            forall|i: int|
                0 <= i < old(self).view_entries().len() ==> (#[trigger] final(self).view_entries()[i]).0 == old(self).view_entries()[i].0,
            forall|i: int|
                0 <= i < old(self).view_entries().len() ==> (#[trigger] final(self).view_entries()[i]).1 == if old(self).view_entries()[i].0 == host@ {
                    slot
                } else {
                    old(self).view_entries()[i].1
                },
    {
        match self.find(host) {
            Some(i) => {
                let ghost before = self.view_entries();
                let key = self.entries[i].0.clone();
                self.entries.set(i, (key, slot));
                assert forall|j: int| 0 <= j < before.len() implies (#[trigger] self.view_entries()[j]).1
                    == if before[j].0 == host@ {
                    slot
                } else {
                    before[j].1
                } by {
                    if j != i && before[j].0 == host@ {
                        if j < i {
                            assert(before[j].0 != before[i as int].0);
                        } else {
                            assert(before[i as int].0 != before[j].0);
                        }
                    }
                }
                assert forall|a: int, b: int|
                    0 <= a < b < self.view_entries().len() implies #[trigger] self.view_entries()[a].0
                    != #[trigger] self.view_entries()[b].0 by {
                    assert(self.view_entries()[a].0 == before[a].0);
                    assert(self.view_entries()[b].0 == before[b].0);
                }
            },
            None => {},
        }
    }

    /// Mark a completed load; a no-op when the host was evicted meanwhile.
    pub fn set_ready(&mut self, host: &str, image: T)
        requires
            old(self).wf(),
        ensures
            final(self).wf(),
            final(self).capacity() == old(self).capacity(),
            final(self).view_entries().len() == old(self).view_entries().len(),
            forall|i: int|
                0 <= i < old(self).view_entries().len() ==> (#[trigger] final(self).view_entries()[i]).0 == old(self).view_entries()[i].0,
            forall|i: int|
                0 <= i < old(self).view_entries().len() ==> (#[trigger] final(self).view_entries()[i]).1 == if old(self).view_entries()[i].0 == host@ {
                    Slot::Ready(image)
                } else {
                    old(self).view_entries()[i].1
                },
    {
        self.set_slot(host, Slot::Ready(image));
    }

    /// Mark a failed load (never retried while the slot lives); no-op when
    /// the host was evicted.
    pub fn set_failed(&mut self, host: &str)
        requires
            old(self).wf(),
        ensures
            final(self).wf(),
            final(self).capacity() == old(self).capacity(),
            final(self).view_entries().len() == old(self).view_entries().len(),
            forall|i: int|
                0 <= i < old(self).view_entries().len() ==> (#[trigger] final(self).view_entries()[i]).0 == old(self).view_entries()[i].0,
            forall|i: int|
                0 <= i < old(self).view_entries().len() ==> (#[trigger] final(self).view_entries()[i]).1 == if old(self).view_entries()[i].0 == host@ {
                    Slot::<T>::Failed
                } else {
                    old(self).view_entries()[i].1
                },
    {
        self.set_slot(host, Slot::Failed);
    }

    /// Number of tracked hosts (any state).
    pub fn len(&self) -> (n: usize)
        ensures
            n == self.view_entries().len(),
    {
        self.entries.len()
    }

    /// Whether the cache is empty.
    pub fn is_empty(&self) -> (r: bool)
        ensures
            r == (self.view_entries().len() == 0),
    {
        self.entries.len() == 0
    }
}

} // verus!
