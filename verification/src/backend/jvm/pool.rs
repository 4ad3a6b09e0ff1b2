//! The JVM constant pool (JVMS §4.4), built incrementally: each `utf8`/`class`/
//! `fieldref`/etc. call either returns the index of an already-interned entry or
//! appends a new one and returns its fresh index. Entries are encoded at insertion
//! time (the pool's on-disk order is exactly insertion order), and `write` prepends
//! the `constant_pool_count`: one greater than the number of slots used, since a
//! `Long` occupies two slots and burns the index after it (JVMS §4.4.5).

use vstd::prelude::*;
use crate::text::{chars_of, string_eq};

verus! {

pub const TAG_UTF8: u8 = 1;
pub const TAG_INTEGER: u8 = 3;
pub const TAG_LONG: u8 = 5;
pub const TAG_CLASS: u8 = 7;
pub const TAG_STRING: u8 = 8;
pub const TAG_FIELDREF: u8 = 9;
pub const TAG_METHODREF: u8 = 10;
pub const TAG_NAME_AND_TYPE: u8 = 12;

/// `v` as two bytes, most significant first.
pub open spec fn be16(v: u16) -> Seq<u8> {
    seq![(v / 256) as u8, (v % 256) as u8]
}

/// `v` as four bytes, most significant first.
pub open spec fn be32(v: u32) -> Seq<u8> {
    seq![
        (v / 0x100_0000) as u8,
        ((v / 0x1_0000) % 256) as u8,
        ((v / 256) % 256) as u8,
        (v % 256) as u8,
    ]
}

/// `v` as eight bytes, most significant first.
pub open spec fn be64(v: u64) -> Seq<u8> {
    be32((v / 0x1_0000_0000) as u32) + be32((v % 0x1_0000_0000) as u32)
}

/// The UTF-8 bytes of one character.
pub open spec fn char_utf8(c: char) -> Seq<u8> {
    let v = c as u32;
    if v < 0x80 {
        seq![v as u8]
    } else if v < 0x800 {
        seq![(0xC0 + v / 64) as u8, (0x80 + v % 64) as u8]
    } else if v < 0x1_0000 {
        seq![(0xE0 + v / 4096) as u8, (0x80 + (v / 64) % 64) as u8, (0x80 + v % 64) as u8]
    } else {
        seq![
            (0xF0 + v / 262144) as u8,
            (0x80 + (v / 4096) % 64) as u8,
            (0x80 + (v / 64) % 64) as u8,
            (0x80 + v % 64) as u8,
        ]
    }
}

/// The UTF-8 bytes of a text.
pub open spec fn utf8_encode(s: Seq<char>) -> Seq<u8>
    decreases s.len(),
{
    if s.len() == 0 {
        Seq::empty()
    } else {
        utf8_encode(s.drop_last()) + char_utf8(s.last())
    }
}

/// One constant-pool entry, as JVMS §4.4 describes it. References to other entries
/// are pool indices.
pub enum Const {
    Utf8(Seq<char>),
    Integer(i32),
    Long(i64),
    Class(u16),
    Str(u16),
    NameAndType(u16, u16),
    Fieldref(u16, u16),
    Methodref(u16, u16),
}

/// How many pool indices an entry takes: two for a `Long`, one otherwise.
pub open spec fn const_slots(c: Const) -> nat {
    if c is Long {
        2
    } else {
        1
    }
}

/// An entry's bytes: its tag, then its operands.
pub open spec fn const_bytes(c: Const) -> Seq<u8> {
    match c {
        Const::Utf8(s) => seq![TAG_UTF8] + be16(utf8_encode(s).len() as u16) + utf8_encode(s),
        Const::Integer(v) => seq![TAG_INTEGER] + be32(v as u32),
        Const::Long(v) => seq![TAG_LONG] + be64(v as u64),
        Const::Class(n) => seq![TAG_CLASS] + be16(n),
        Const::Str(n) => seq![TAG_STRING] + be16(n),
        Const::NameAndType(n, d) => seq![TAG_NAME_AND_TYPE] + be16(n) + be16(d),
        Const::Fieldref(c, nt) => seq![TAG_FIELDREF] + be16(c) + be16(nt),
        Const::Methodref(c, nt) => seq![TAG_METHODREF] + be16(c) + be16(nt),
    }
}

/// The entries' bytes, in order.
pub open spec fn consts_bytes(cs: Seq<Const>) -> Seq<u8>
    decreases cs.len(),
{
    if cs.len() == 0 {
        Seq::empty()
    } else {
        consts_bytes(cs.drop_last()) + const_bytes(cs.last())
    }
}

/// The pool index of entry `k`: indices start at 1, and each entry takes its slots.
pub open spec fn index_at(cs: Seq<Const>, k: int) -> nat
    decreases k,
{
    if k <= 0 {
        1
    } else {
        index_at(cs, k - 1) + const_slots(cs[k - 1])
    }
}

/// The index the next entry would get; also the pool's `constant_pool_count`.
pub open spec fn next_index(cs: Seq<Const>) -> nat {
    index_at(cs, cs.len() as int)
}

/// The first position at or after `k` holding `c`.
pub open spec fn position_from(cs: Seq<Const>, c: Const, k: int) -> Option<int>
    decreases cs.len() - k,
{
    if k < 0 || k >= cs.len() {
        None
    } else if cs[k] == c {
        Some(k)
    } else {
        position_from(cs, c, k + 1)
    }
}

/// The pool index of `c`, when the pool holds it.
pub open spec fn index_of(cs: Seq<Const>, c: Const) -> Option<nat> {
    match position_from(cs, c, 0) {
        Some(k) => Some(index_at(cs, k)),
        None => None,
    }
}

/// The pool after asking for `c`: unchanged when it already holds `c`, else with
/// `c` appended.
pub open spec fn intern(cs: Seq<Const>, c: Const) -> Seq<Const> {
    if index_of(cs, c) is Some {
        cs
    } else {
        cs.push(c)
    }
}

/// Asking for `c`: the pool afterwards, and the index that holds `c` in it.
pub open spec fn with_const(cs: Seq<Const>, c: Const) -> (Seq<Const>, nat) {
    let p = intern(cs, c);
    (
        p,
        match index_of(p, c) {
            Some(i) => i,
            None => 0,
        },
    )
}

/// Asking for the `Utf8` entry of `s`.
pub open spec fn with_utf8(cs: Seq<Const>, s: Seq<char>) -> (Seq<Const>, nat) {
    with_const(cs, Const::Utf8(s))
}

/// Asking for the `Class` entry of the internal name `name`.
pub open spec fn with_class(cs: Seq<Const>, name: Seq<char>) -> (Seq<Const>, nat) {
    let (p, u) = with_utf8(cs, name);
    with_const(p, Const::Class(u as u16))
}

/// Asking for the `NameAndType` entry of `name` and `descriptor`.
pub open spec fn with_name_and_type(cs: Seq<Const>, name: Seq<char>, descriptor: Seq<char>) -> (
    Seq<Const>,
    nat,
) {
    let (p1, n) = with_utf8(cs, name);
    let (p2, d) = with_utf8(p1, descriptor);
    with_const(p2, Const::NameAndType(n as u16, d as u16))
}

/// Asking for the `Fieldref` (or, with `method`, `Methodref`) entry of a member.
pub open spec fn with_member(
    cs: Seq<Const>,
    method: bool,
    class: Seq<char>,
    name: Seq<char>,
    descriptor: Seq<char>,
) -> (Seq<Const>, nat) {
    let (p1, c) = with_class(cs, class);
    let (p2, nt) = with_name_and_type(p1, name, descriptor);
    if method {
        with_const(p2, Const::Methodref(c as u16, nt as u16))
    } else {
        with_const(p2, Const::Fieldref(c as u16, nt as u16))
    }
}

/// Asking for the `String` entry of `s`.
pub open spec fn with_string(cs: Seq<Const>, s: Seq<char>) -> (Seq<Const>, nat) {
    let (p, u) = with_utf8(cs, s);
    with_const(p, Const::Str(u as u16))
}

/// No entry appears twice.
pub open spec fn no_duplicates(cs: Seq<Const>) -> bool {
    forall|i: int, j: int| 0 <= i < j < cs.len() ==> cs[i] != cs[j]
}

pub proof fn lemma_index_at_mono(cs: Seq<Const>, j: int, k: int)
    requires
        0 <= j <= k <= cs.len(),
    ensures
        index_at(cs, j) + (k - j) <= index_at(cs, k),
    decreases k - j,
{
    if j < k {
        lemma_index_at_mono(cs, j, k - 1);
    }
}

pub proof fn lemma_index_at_push(cs: Seq<Const>, c: Const, k: int)
    requires
        0 <= k <= cs.len(),
    ensures
        index_at(cs.push(c), k) == index_at(cs, k),
    decreases k,
{
    if k > 0 {
        lemma_index_at_push(cs, c, k - 1);
    }
}

pub proof fn lemma_position_from(cs: Seq<Const>, c: Const, k: int)
    requires
        0 <= k <= cs.len(),
    ensures
        position_from(cs, c, k) matches Some(p) ==> k <= p < cs.len() && cs[p] == c && forall|
            j: int,
        | k <= j < p ==> cs[j] != c,
        position_from(cs, c, k) is None ==> forall|j: int| k <= j < cs.len() ==> cs[j] != c,
    decreases cs.len() - k,
{
    if k < cs.len() {
        lemma_position_from(cs, c, k + 1);
    }
}

/// Appending an entry leaves every earlier lookup alone, and finds the new entry at
/// the old next index.
pub proof fn lemma_index_of_push(cs: Seq<Const>, c: Const, x: Const)
    ensures
        index_of(cs.push(c), x) == (if index_of(cs, x) is Some {
            index_of(cs, x)
        } else if c == x {
            Some(next_index(cs))
        } else {
            None
        }),
{
    lemma_position_from(cs, x, 0);
    lemma_position_from(cs.push(c), x, 0);
    let p = cs.push(c);
    match position_from(cs, x, 0) {
        Some(k) => {
            assert(p[k] == x);
            if let Some(k2) = position_from(p, x, 0) {
                if k2 < k {
                    assert(p[k2] == cs[k2]);
                }
            }
            lemma_index_at_push(cs, c, k);
        },
        None => {
            if let Some(k2) = position_from(p, x, 0) {
                if k2 < cs.len() {
                    assert(p[k2] == cs[k2]);
                }
                lemma_index_at_push(cs, c, cs.len() as int);
            }
            if c == x {
                assert(p[cs.len() as int] == x);
            }
        },
    }
}

/// Asking for `c` leaves every earlier lookup alone.
pub proof fn lemma_intern_keeps(cs: Seq<Const>, c: Const, x: Const)
    requires
        index_of(cs, x) is Some,
    ensures
        index_of(intern(cs, c), x) == index_of(cs, x),
{
    if index_of(cs, c) is None {
        lemma_index_of_push(cs, c, x);
    }
}

/// Asking for `c` takes at most `c`'s slots.
pub proof fn lemma_with_const_next(cs: Seq<Const>, c: Const)
    ensures
        next_index(with_const(cs, c).0) <= next_index(cs) + const_slots(c),
        next_index(cs) <= next_index(with_const(cs, c).0),
{
    if index_of(cs, c) is None {
        lemma_index_at_push(cs, c, cs.len() as int);
        assert(cs.push(c).drop_last() =~= cs);
    }
}

/// Asking for the same entry twice is asking once: the second request changes
/// nothing and gives the same index.
pub proof fn lemma_with_const_idempotent(cs: Seq<Const>, c: Const)
    ensures
        with_const(with_const(cs, c).0, c) == with_const(cs, c),
        index_of(with_const(cs, c).0, c) == Some(with_const(cs, c).1),
{
    lemma_index_of_push(cs, c, c);
}

/// Different entries of one pool sit at different indices.
pub proof fn lemma_index_of_distinct(cs: Seq<Const>, c: Const, d: Const)
    requires
        c != d,
        index_of(cs, c) is Some,
        index_of(cs, d) is Some,
    ensures
        index_of(cs, c) != index_of(cs, d),
{
    lemma_position_from(cs, c, 0);
    lemma_position_from(cs, d, 0);
    let kc = position_from(cs, c, 0)->0;
    let kd = position_from(cs, d, 0)->0;
    if kc < kd {
        lemma_index_at_mono(cs, kc, kd);
    } else {
        lemma_index_at_mono(cs, kd, kc);
    }
}

/// The entry types this pool holds, as they are stored.
enum Entry {
    Utf8(String),
    Integer(i32),
    Long(i64),
    Class(u16),
    Str(u16),
    NameAndType(u16, u16),
    Fieldref(u16, u16),
    Methodref(u16, u16),
}

spec fn entry_const(e: Entry) -> Const {
    match e {
        Entry::Utf8(s) => Const::Utf8(s@),
        Entry::Integer(v) => Const::Integer(v),
        Entry::Long(v) => Const::Long(v),
        Entry::Class(n) => Const::Class(n),
        Entry::Str(n) => Const::Str(n),
        Entry::NameAndType(n, d) => Const::NameAndType(n, d),
        Entry::Fieldref(c, nt) => Const::Fieldref(c, nt),
        Entry::Methodref(c, nt) => Const::Methodref(c, nt),
    }
}

fn entry_eq(a: &Entry, b: &Entry) -> (r: bool)
    ensures
        r == (entry_const(*a) == entry_const(*b)),
{
    match (a, b) {
        (Entry::Utf8(x), Entry::Utf8(y)) => string_eq(x, y),
        (Entry::Integer(x), Entry::Integer(y)) => *x == *y,
        (Entry::Long(x), Entry::Long(y)) => *x == *y,
        (Entry::Class(x), Entry::Class(y)) => *x == *y,
        (Entry::Str(x), Entry::Str(y)) => *x == *y,
        (Entry::NameAndType(x1, x2), Entry::NameAndType(y1, y2)) => *x1 == *y1 && *x2 == *y2,
        (Entry::Fieldref(x1, x2), Entry::Fieldref(y1, y2)) => *x1 == *y1 && *x2 == *y2,
        (Entry::Methodref(x1, x2), Entry::Methodref(y1, y2)) => *x1 == *y1 && *x2 == *y2,
        _ => false,
    }
}

/// Appends `v` as two bytes, most significant first.
pub fn push_be16(out: &mut Vec<u8>, v: u16)
    ensures
        final(out)@ == old(out)@ + be16(v),
{
    out.push((v / 256) as u8);
    out.push((v % 256) as u8);
    assert(out@ =~= old(out)@ + be16(v));
}

/// Appends `v` as four bytes, most significant first.
pub fn push_be32(out: &mut Vec<u8>, v: u32)
    ensures
        final(out)@ == old(out)@ + be32(v),
{
    out.push((v / 0x100_0000) as u8);
    out.push(((v / 0x1_0000) % 256) as u8);
    out.push(((v / 256) % 256) as u8);
    out.push((v % 256) as u8);
    assert(out@ =~= old(out)@ + be32(v));
}

/// Appends `v` as eight bytes, most significant first.
pub fn push_be64(out: &mut Vec<u8>, v: u64)
    ensures
        final(out)@ == old(out)@ + be64(v),
{
    push_be32(out, (v / 0x1_0000_0000) as u32);
    push_be32(out, (v % 0x1_0000_0000) as u32);
    assert(out@ =~= old(out)@ + be64(v));
}

/// Appends every byte of `bytes`.
pub fn push_bytes(out: &mut Vec<u8>, bytes: &[u8])
    ensures
        final(out)@ == old(out)@ + bytes@,
{
    let ghost start = out@;
    let mut i: usize = 0;
    while i < bytes.len()
        invariant
            i <= bytes@.len(),
            out@ == start + bytes@.take(i as int),
        decreases bytes@.len() - i,
    {
        out.push(bytes[i]);
        i = i + 1;
        assert(bytes@.take(i as int) =~= bytes@.take(i - 1).push(bytes@[i - 1]));
    }
    assert(bytes@.take(i as int) =~= bytes@);
}

/// The UTF-8 bytes of `s`.
pub fn utf8_bytes(s: &str) -> (r: Vec<u8>)
    ensures
        r@ == utf8_encode(s@),
{
    let cs = chars_of(s);
    let mut out: Vec<u8> = Vec::new();
    let mut i: usize = 0;
    proof {
        assert(cs@.take(0) =~= Seq::<char>::empty());
    }
    while i < cs.len()
        invariant
            i <= cs@.len(),
            out@ == utf8_encode(cs@.take(i as int)),
        decreases cs@.len() - i,
    {
        let v = cs[i] as u32;
        let ghost before = out@;
        if v < 0x80 {
            out.push(v as u8);
        } else if v < 0x800 {
            out.push((0xC0 + v / 64) as u8);
            out.push((0x80 + v % 64) as u8);
        } else if v < 0x1_0000 {
            out.push((0xE0 + v / 4096) as u8);
            out.push((0x80 + (v / 64) % 64) as u8);
            out.push((0x80 + v % 64) as u8);
        } else {
            out.push((0xF0 + v / 262144) as u8);
            out.push((0x80 + (v / 4096) % 64) as u8);
            out.push((0x80 + (v / 64) % 64) as u8);
            out.push((0x80 + v % 64) as u8);
        }
        proof {
            assert(out@ =~= before + char_utf8(cs@[i as int]));
            assert(cs@.take(i + 1).drop_last() =~= cs@.take(i as int));
        }
        i = i + 1;
    }
    proof {
        assert(cs@.take(i as int) =~= cs@);
    }
    out
}

pub struct ConstantPool {
    bytes: Vec<u8>,
    next_index: u16,
    entries: Vec<Entry>,
}

impl ConstantPool {
    /// The entries, in insertion order.
    pub closed spec fn consts(&self) -> Seq<Const> {
        self.entries@.map_values(|e: Entry| entry_const(e))
    }

    /// The stored bytes and count agree with the entries, and no entry is held twice.
    pub closed spec fn wf(&self) -> bool {
        &&& self.next_index as nat == next_index(self.consts())
        &&& self.bytes@ == consts_bytes(self.consts())
        &&& no_duplicates(self.consts())
    }

    /// The index the next entry would get.
    pub open spec fn next(&self) -> nat {
        next_index(self.consts())
    }

    /// `k` more slots fit under the 16-bit index limit.
    pub open spec fn has_room(&self, k: nat) -> bool {
        self.next() + k <= u16::MAX
    }

    pub fn new() -> (r: ConstantPool)
        ensures
            r.wf(),
            r.consts() == Seq::<Const>::empty(),
    {
        let r = ConstantPool { bytes: Vec::new(), next_index: 1, entries: Vec::new() };
        assert(r.consts() =~= Seq::<Const>::empty());
        r
    }

    /// The index the next entry would get.
    pub fn next_index(&self) -> (r: u16)
        requires
            self.wf(),
        ensures
            r as nat == self.next(),
    {
        self.next_index
    }

    /// A pool never holds the same entry twice.
    pub proof fn lemma_no_duplicates(&self)
        requires
            self.wf(),
        ensures
            no_duplicates(self.consts()),
    {
    }

    /// The index holding `e`, if any.
    fn lookup(&self, e: &Entry) -> (r: Option<u16>)
        requires
            self.wf(),
            self.next() <= u16::MAX,
        ensures
            r matches Some(i) ==> index_of(self.consts(), entry_const(*e)) == Some(i as nat),
            r is None ==> index_of(self.consts(), entry_const(*e)) is None,
    {
        let ghost cs = self.consts();
        let ghost c = entry_const(*e);
        let mut k: usize = 0;
        let mut idx: u16 = 1;
        proof {
            lemma_position_from(cs, c, 0);
        }
        while k < self.entries.len()
            invariant
                k <= cs.len(),
                cs == self.consts(),
                c == entry_const(*e),
                cs.len() == self.entries@.len(),
                idx as nat == index_at(cs, k as int),
                next_index(cs) <= u16::MAX,
                position_from(cs, c, 0) == position_from(cs, c, k as int),
            decreases cs.len() - k,
        {
            proof {
                assert(cs[k as int] == entry_const(self.entries@[k as int]));
            }
            let same = entry_eq(&self.entries[k], e);
            if same {
                assert(cs[k as int] == c);
                assert(0 <= k < cs.len());
                assert(position_from(cs, c, k as int) == Some(k as int));
                return Some(idx);
            }
            assert(position_from(cs, c, k as int) == position_from(cs, c, k + 1));
            proof {
                lemma_index_at_mono(cs, k + 1, cs.len() as int);
            }
            let step: u16 = match &self.entries[k] {
                Entry::Long(_) => 2,
                _ => 1,
            };
            idx = idx + step;
            k = k + 1;
        }
        None
    }

    /// Appends `e`, which the pool does not hold yet, and returns its index.
    fn append(&mut self, e: Entry) -> (r: u16)
        requires
            old(self).wf(),
            index_of(old(self).consts(), entry_const(e)) is None,
            old(self).next() + const_slots(entry_const(e)) <= u16::MAX,
        ensures
            final(self).wf(),
            final(self).consts() == old(self).consts().push(entry_const(e)),
            r as nat == old(self).next(),
    {
        let ghost c = entry_const(e);
        let ghost cs = self.consts();
        let idx = self.next_index;
        let ghost b0 = self.bytes@;
        match &e {
            Entry::Utf8(s) => {
                self.next_index = idx + 1;
                self.bytes.push(TAG_UTF8);
                let raw = utf8_bytes(s.as_str());
                push_be16(&mut self.bytes, #[verifier::truncate] (raw.len() as u16));
                push_bytes(&mut self.bytes, raw.as_slice());
            },
            Entry::Integer(v) => {
                self.next_index = idx + 1;
                self.bytes.push(TAG_INTEGER);
                push_be32(&mut self.bytes, #[verifier::truncate] (*v as u32));
            },
            Entry::Long(v) => {
                self.next_index = idx + 2;
                self.bytes.push(TAG_LONG);
                push_be64(&mut self.bytes, #[verifier::truncate] (*v as u64));
            },
            Entry::Class(n) => {
                self.next_index = idx + 1;
                self.bytes.push(TAG_CLASS);
                push_be16(&mut self.bytes, *n);
            },
            Entry::Str(n) => {
                self.next_index = idx + 1;
                self.bytes.push(TAG_STRING);
                push_be16(&mut self.bytes, *n);
            },
            Entry::NameAndType(n, d) => {
                self.next_index = idx + 1;
                self.bytes.push(TAG_NAME_AND_TYPE);
                push_be16(&mut self.bytes, *n);
                push_be16(&mut self.bytes, *d);
            },
            Entry::Fieldref(c, nt) => {
                self.next_index = idx + 1;
                self.bytes.push(TAG_FIELDREF);
                push_be16(&mut self.bytes, *c);
                push_be16(&mut self.bytes, *nt);
            },
            Entry::Methodref(c, nt) => {
                self.next_index = idx + 1;
                self.bytes.push(TAG_METHODREF);
                push_be16(&mut self.bytes, *c);
                push_be16(&mut self.bytes, *nt);
            },
        }
        assert(self.bytes@ =~= b0 + const_bytes(c));
        self.entries.push(e);
        proof {
            let cs2 = self.consts();
            assert(cs2 =~= cs.push(c));
            assert(cs2.drop_last() =~= cs);
            lemma_index_at_push(cs, c, cs.len() as int);
            assert(next_index(cs2) == index_at(cs2, cs.len() as int) + const_slots(c));
            assert(consts_bytes(cs2) == consts_bytes(cs) + const_bytes(c));
            lemma_position_from(cs, c, 0);
            assert forall|i: int, j: int| 0 <= i < j < cs2.len() implies cs2[i] != cs2[j] by {
                if j == cs.len() {
                    assert(cs2[i] == cs[i]);
                } else {
                    assert(cs2[i] == cs[i] && cs2[j] == cs[j]);
                }
            }
        }
        idx
    }

    /// Interns `e` and returns the index holding it.
    fn intern_entry(&mut self, e: Entry) -> (r: u16)
        requires
            old(self).wf(),
            old(self).next() + const_slots(entry_const(e)) <= u16::MAX,
        ensures
            final(self).wf(),
            final(self).consts() == with_const(old(self).consts(), entry_const(e)).0,
            r as nat == with_const(old(self).consts(), entry_const(e)).1,
    {
        let ghost c = entry_const(e);
        if let Some(i) = self.lookup(&e) {
            i
        } else {
            let ghost cs = self.consts();
            let i = self.append(e);
            proof {
                lemma_index_of_push(cs, c, c);
            }
            i
        }
    }

    pub fn utf8(&mut self, s: &str) -> (r: u16)
        requires
            old(self).wf(),
            old(self).has_room(1),
        ensures
            final(self).wf(),
            final(self).consts() == with_utf8(old(self).consts(), s@).0,
            r as nat == with_utf8(old(self).consts(), s@).1,
            old(self).next() <= final(self).next() <= old(self).next() + 1,
    {
        proof {
            lemma_with_const_next(self.consts(), Const::Utf8(s@));
        }
        self.intern_entry(Entry::Utf8(String::from_str(s)))
    }

    pub fn class(&mut self, internal_name: &str) -> (r: u16)
        requires
            old(self).wf(),
            old(self).has_room(2),
        ensures
            final(self).wf(),
            final(self).consts() == with_class(old(self).consts(), internal_name@).0,
            r as nat == with_class(old(self).consts(), internal_name@).1,
            old(self).next() <= final(self).next() <= old(self).next() + 2,
    {
        let name_idx = self.utf8(internal_name);
        proof {
            lemma_with_const_next(self.consts(), Const::Class(name_idx));
        }
        self.intern_entry(Entry::Class(name_idx))
    }

    pub fn name_and_type(&mut self, name: &str, descriptor: &str) -> (r: u16)
        requires
            old(self).wf(),
            old(self).has_room(3),
        ensures
            final(self).wf(),
            final(self).consts() == with_name_and_type(old(self).consts(), name@, descriptor@).0,
            r as nat == with_name_and_type(old(self).consts(), name@, descriptor@).1,
            old(self).next() <= final(self).next() <= old(self).next() + 3,
    {
        let name_idx = self.utf8(name);
        let desc_idx = self.utf8(descriptor);
        proof {
            lemma_with_const_next(self.consts(), Const::NameAndType(name_idx, desc_idx));
        }
        self.intern_entry(Entry::NameAndType(name_idx, desc_idx))
    }

    pub fn fieldref(&mut self, class_internal: &str, name: &str, descriptor: &str) -> (r: u16)
        requires
            old(self).wf(),
            old(self).has_room(6),
        ensures
            final(self).wf(),
            final(self).consts() == with_member(
                old(self).consts(),
                false,
                class_internal@,
                name@,
                descriptor@,
            ).0,
            r as nat == with_member(old(self).consts(), false, class_internal@, name@, descriptor@).1,
            old(self).next() <= final(self).next() <= old(self).next() + 6,
    {
        let class_idx = self.class(class_internal);
        let nat_idx = self.name_and_type(name, descriptor);
        proof {
            lemma_with_const_next(self.consts(), Const::Fieldref(class_idx, nat_idx));
        }
        self.intern_entry(Entry::Fieldref(class_idx, nat_idx))
    }

    pub fn methodref(&mut self, class_internal: &str, name: &str, descriptor: &str) -> (r: u16)
        requires
            old(self).wf(),
            old(self).has_room(6),
        ensures
            final(self).wf(),
            final(self).consts() == with_member(
                old(self).consts(),
                true,
                class_internal@,
                name@,
                descriptor@,
            ).0,
            r as nat == with_member(old(self).consts(), true, class_internal@, name@, descriptor@).1,
            old(self).next() <= final(self).next() <= old(self).next() + 6,
    {
        let class_idx = self.class(class_internal);
        let nat_idx = self.name_and_type(name, descriptor);
        proof {
            lemma_with_const_next(self.consts(), Const::Methodref(class_idx, nat_idx));
        }
        self.intern_entry(Entry::Methodref(class_idx, nat_idx))
    }

    pub fn string(&mut self, s: &str) -> (r: u16)
        requires
            old(self).wf(),
            old(self).has_room(2),
        ensures
            final(self).wf(),
            final(self).consts() == with_string(old(self).consts(), s@).0,
            r as nat == with_string(old(self).consts(), s@).1,
            old(self).next() <= final(self).next() <= old(self).next() + 2,
    {
        let utf8_idx = self.utf8(s);
        proof {
            lemma_with_const_next(self.consts(), Const::Str(utf8_idx));
        }
        self.intern_entry(Entry::Str(utf8_idx))
    }

    pub fn integer(&mut self, v: i32) -> (r: u16)
        requires
            old(self).wf(),
            old(self).has_room(1),
        ensures
            final(self).wf(),
            final(self).consts() == with_const(old(self).consts(), Const::Integer(v)).0,
            r as nat == with_const(old(self).consts(), Const::Integer(v)).1,
            old(self).next() <= final(self).next() <= old(self).next() + 1,
    {
        proof {
            lemma_with_const_next(self.consts(), Const::Integer(v));
        }
        self.intern_entry(Entry::Integer(v))
    }

    /// A `Long` entry occupies indices `idx` and `idx + 1` (JVMS §4.4.5): the next
    /// entry allocated after this one skips index `idx + 1` entirely.
    pub fn long(&mut self, v: i64) -> (r: u16)
        requires
            old(self).wf(),
            old(self).has_room(2),
        ensures
            final(self).wf(),
            final(self).consts() == with_const(old(self).consts(), Const::Long(v)).0,
            r as nat == with_const(old(self).consts(), Const::Long(v)).1,
            old(self).next() <= final(self).next() <= old(self).next() + 2,
    {
        proof {
            lemma_with_const_next(self.consts(), Const::Long(v));
        }
        self.intern_entry(Entry::Long(v))
    }

    /// Writes `constant_pool_count` followed by every entry, in insertion order.
    pub fn write(&self, out: &mut Vec<u8>)
        requires
            self.wf(),
        ensures
            final(out)@ == old(out)@ + be16(self.next() as u16) + consts_bytes(self.consts()),
    {
        push_be16(out, self.next_index);
        push_bytes(out, self.bytes.as_slice());
    }
}

} // verus!
