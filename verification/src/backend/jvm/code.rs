//! A `Code` attribute builder (JVMS §4.7.3): emits raw bytecode and tracks
//! `max_stack`/`max_locals` as each instruction is appended.
//!
//! Every method the backend emits is straight-line: no branches, loops or exception
//! handlers. A single running stack depth is therefore exact, not just a bound, and
//! the builder never needs to emit a `StackMapTable`. The depth never goes below
//! zero, and is kept within the 16-bit limit a `Code` attribute records.

use vstd::prelude::*;
use crate::span::utf8_len;
use crate::text::chars_of;
use super::pool::{
    be16, with_class, with_const, with_member, with_string, ConstantPool, Const,
};

verus! {

pub const T_BOOLEAN: u8 = 4;
pub const T_INT: u8 = 10;
pub const T_LONG: u8 = 11;

/// What a builder holds: the bytecode so far, the running stack depth, and the
/// largest depth and local-slot count reached.
pub struct CodeView {
    pub code: Seq<u8>,
    pub stack: int,
    pub max_stack: int,
    pub max_locals: int,
}

/// Appends bytes to the code.
pub open spec fn emit(v: CodeView, bytes: Seq<u8>) -> CodeView {
    CodeView { code: v.code + bytes, ..v }
}

/// Moves the stack depth by `words`, raising the recorded maximum when it is passed.
pub open spec fn adjust(v: CodeView, words: int) -> CodeView {
    let st = v.stack + words;
    CodeView {
        stack: st,
        max_stack: if st > v.max_stack {
            st
        } else {
            v.max_stack
        },
        ..v
    }
}

/// Records that local slots `slot .. slot + width` are used.
pub open spec fn touch(v: CodeView, slot: u16, width: nat) -> CodeView {
    CodeView {
        max_locals: if slot + width > v.max_locals {
            slot + width
        } else {
            v.max_locals
        },
        ..v
    }
}

/// The bytes of `ldc`/`ldc_w` for pool index `idx`.
pub open spec fn ldc_bytes(idx: nat) -> Seq<u8> {
    if idx <= 0xff {
        seq![0x12u8, idx as u8]
    } else {
        seq![0x13u8] + be16(idx as u16)
    }
}

/// The two's-complement low byte of a small integer.
pub open spec fn low_byte(v: int) -> u8 {
    (if v < 0 {
        v + 256
    } else {
        v
    }) as u8
}

/// The two's-complement 16 bits of a small integer.
pub open spec fn low_word(v: int) -> u16 {
    (if v < 0 {
        v + 65536
    } else {
        v
    }) as u16
}

/// Pushing an `int`: `iconst_<n>`, `bipush`, `sipush`, or `ldc` of an `Integer`
/// entry. The pool afterwards, and the builder.
pub open spec fn push_int_spec(v: CodeView, cs: Seq<Const>, x: i32) -> (CodeView, Seq<Const>) {
    if -1 <= x <= 5 {
        (adjust(emit(v, seq![(0x03 + x) as u8]), 1), cs)
    } else if -128 <= x <= 127 {
        (adjust(emit(v, seq![0x10u8, low_byte(x as int)]), 1), cs)
    } else if -32768 <= x <= 32767 {
        (adjust(emit(v, seq![0x11u8] + be16(low_word(x as int))), 1), cs)
    } else {
        let (p, i) = with_const(cs, Const::Integer(x));
        (adjust(emit(v, ldc_bytes(i)), 1), p)
    }
}

/// Pushing a `long`: `lconst_0`, `lconst_1`, or `ldc2_w` of a `Long` entry.
pub open spec fn push_long_spec(v: CodeView, cs: Seq<Const>, x: i64) -> (CodeView, Seq<Const>) {
    if x == 0 {
        (adjust(emit(v, seq![0x09u8]), 2), cs)
    } else if x == 1 {
        (adjust(emit(v, seq![0x0au8]), 2), cs)
    } else {
        let (p, i) = with_const(cs, Const::Long(x));
        (adjust(emit(v, seq![0x14u8] + be16(i as u16)), 2), p)
    }
}

/// Pushing a `String` constant with `ldc`.
pub open spec fn push_string_spec(v: CodeView, cs: Seq<Const>, s: Seq<char>) -> (
    CodeView,
    Seq<Const>,
) {
    let (p, i) = with_string(cs, s);
    (adjust(emit(v, ldc_bytes(i)), 1), p)
}

/// A local-variable instruction: the short form `short + slot` for slots 0 to 3, else
/// `long` followed by the slot's low byte.
pub open spec fn local_bytes(short: u8, long: u8, slot: u16) -> Seq<u8> {
    if slot <= 3 {
        seq![(short + slot) as u8]
    } else {
        seq![long, (slot % 256) as u8]
    }
}

/// A local-variable instruction and its effect: stack moved by `words`, slots
/// `slot .. slot + width` used.
pub open spec fn local_spec(v: CodeView, short: u8, long: u8, slot: u16, words: int, width: nat) -> CodeView {
    touch(adjust(emit(v, local_bytes(short, long, slot)), words), slot, width)
}

/// A one-byte instruction that moves the stack by `words`.
pub open spec fn simple_spec(v: CodeView, op: u8, words: int) -> CodeView {
    adjust(emit(v, seq![op]), words)
}

/// An instruction whose operand is the `Class` entry of `name`, moving the stack by
/// `words`.
pub open spec fn class_op_spec(v: CodeView, cs: Seq<Const>, op: u8, name: Seq<char>, words: int) -> (
    CodeView,
    Seq<Const>,
) {
    let (p, i) = with_class(cs, name);
    (adjust(emit(v, seq![op] + be16(i as u16)), words), p)
}

/// A field or method instruction: its operand is the member's `Fieldref` or
/// `Methodref` entry; it pops `pops` words, then pushes `pushes`.
pub open spec fn member_spec(
    v: CodeView,
    cs: Seq<Const>,
    op: u8,
    method: bool,
    class: Seq<char>,
    name: Seq<char>,
    descriptor: Seq<char>,
    pops: int,
    pushes: int,
) -> (CodeView, Seq<Const>) {
    let (p, i) = with_member(cs, method, class, name, descriptor);
    (adjust(adjust(emit(v, seq![op] + be16(i as u16)), -pops), pushes), p)
}

/// The argument words a method descriptor reads as.
pub open spec fn args_of(d: Seq<char>) -> int {
    match call_words_spec(d) {
        Some((a, _)) => a as int,
        None => 0,
    }
}

/// The return words a method descriptor reads as.
pub open spec fn ret_of(d: Seq<char>) -> int {
    match call_words_spec(d) {
        Some((_, r)) => r as int,
        None => 0,
    }
}

/// A builder's depth is never negative and never passes its recorded maximum, which
/// fits the 16 bits a `Code` attribute has for it.
pub open spec fn code_wf(v: CodeView) -> bool {
    &&& 0 <= v.stack <= v.max_stack <= u16::MAX
    &&& 0 <= v.max_locals <= u16::MAX
}

/// One instruction, as the builder's methods emit it. Class, member and descriptor
/// names are the texts the builder interns in the constant pool.
pub enum Insn {
    PushInt(i32),
    PushLong(i64),
    PushString(Seq<char>),
    AloadThis,
    Aload(u16),
    Astore(u16),
    Lload(u16),
    Lstore(u16),
    NewArray(u8),
    ANewArray(Seq<char>),
    Dup,
    AaStore,
    IaStore,
    BaStore,
    LaLoad,
    GetField(Seq<char>, Seq<char>, Seq<char>),
    PutField(Seq<char>, Seq<char>, Seq<char>),
    GetStatic(Seq<char>, Seq<char>, Seq<char>),
    PutStatic(Seq<char>, Seq<char>, Seq<char>),
    New(Seq<char>),
    InvokeSpecial(Seq<char>, Seq<char>, Seq<char>),
    InvokeVirtual(Seq<char>, Seq<char>, Seq<char>),
    InvokeStatic(Seq<char>, Seq<char>, Seq<char>),
    Ladd,
    Lsub,
    Lmul,
    Ldiv,
    Lrem,
    Return,
    AReturn,
}

/// What emitting `i` does to a builder and its pool: the builder method of the same
/// name's contract.
pub open spec fn step(s: (CodeView, Seq<Const>), i: Insn) -> (CodeView, Seq<Const>) {
    let (v, cs) = s;
    match i {
        Insn::PushInt(x) => push_int_spec(v, cs, x),
        Insn::PushLong(x) => push_long_spec(v, cs, x),
        Insn::PushString(t) => push_string_spec(v, cs, t),
        Insn::AloadThis => (local_spec(v, 0x2a, 0x19, 0, 1, 1), cs),
        Insn::Aload(n) => (local_spec(v, 0x2a, 0x19, n, 1, 1), cs),
        Insn::Astore(n) => (local_spec(v, 0x4b, 0x3a, n, -1, 1), cs),
        Insn::Lload(n) => (local_spec(v, 0x1e, 0x16, n, 2, 2), cs),
        Insn::Lstore(n) => (local_spec(v, 0x3f, 0x37, n, -2, 2), cs),
        Insn::NewArray(t) => (emit(v, seq![0xbcu8, t]), cs),
        Insn::ANewArray(c) => class_op_spec(v, cs, 0xbd, c, 0),
        Insn::Dup => (simple_spec(v, 0x59, 1), cs),
        Insn::AaStore => (simple_spec(v, 0x53, -3), cs),
        Insn::IaStore => (simple_spec(v, 0x4f, -3), cs),
        Insn::BaStore => (simple_spec(v, 0x54, -3), cs),
        Insn::LaLoad => (adjust(simple_spec(v, 0x2f, -2), 2), cs),
        Insn::GetField(c, n, d) => member_spec(v, cs, 0xb4, false, c, n, d, 1, field_words(d) as int),
        Insn::PutField(c, n, d) => member_spec(
            v,
            cs,
            0xb5,
            false,
            c,
            n,
            d,
            1 + field_words(d) as int,
            0,
        ),
        Insn::GetStatic(c, n, d) => member_spec(v, cs, 0xb2, false, c, n, d, 0, field_words(d) as int),
        Insn::PutStatic(c, n, d) => member_spec(v, cs, 0xb3, false, c, n, d, field_words(d) as int, 0),
        Insn::New(c) => class_op_spec(v, cs, 0xbb, c, 1),
        Insn::InvokeSpecial(c, n, d) => member_spec(
            v,
            cs,
            0xb7,
            true,
            c,
            n,
            d,
            1 + args_of(d),
            ret_of(d),
        ),
        Insn::InvokeVirtual(c, n, d) => member_spec(
            v,
            cs,
            0xb6,
            true,
            c,
            n,
            d,
            1 + args_of(d),
            ret_of(d),
        ),
        Insn::InvokeStatic(c, n, d) => member_spec(v, cs, 0xb8, true, c, n, d, args_of(d), ret_of(d)),
        Insn::Ladd => (simple_spec(v, 0x61, -2), cs),
        Insn::Lsub => (simple_spec(v, 0x65, -2), cs),
        Insn::Lmul => (simple_spec(v, 0x69, -2), cs),
        Insn::Ldiv => (simple_spec(v, 0x6d, -2), cs),
        Insn::Lrem => (simple_spec(v, 0x71, -2), cs),
        Insn::Return => (emit(v, seq![0xb1u8]), cs),
        Insn::AReturn => (simple_spec(v, 0xb0, -1), cs),
    }
}

/// Emitting the instructions in order.
pub open spec fn run(s: (CodeView, Seq<Const>), is: Seq<Insn>) -> (CodeView, Seq<Const>)
    decreases is.len(),
{
    if is.len() == 0 {
        s
    } else {
        step(run(s, is.drop_last()), is.last())
    }
}

pub proof fn lemma_run_push(s: (CodeView, Seq<Const>), is: Seq<Insn>, i: Insn)
    ensures
        run(s, is.push(i)) == step(run(s, is), i),
{
    assert(is.push(i).drop_last() =~= is);
}

/// Emitting two runs one after the other is emitting their concatenation.
pub proof fn lemma_run_append(s: (CodeView, Seq<Const>), a: Seq<Insn>, b: Seq<Insn>)
    ensures
        run(s, a + b) == run(run(s, a), b),
    decreases b.len(),
{
    if b.len() == 0 {
        assert(a + b =~= a);
    } else {
        lemma_run_append(s, a, b.drop_last());
        assert((a + b).drop_last() =~= a + b.drop_last());
        assert((a + b).last() == b.last());
    }
}

/// The stack words a field descriptor's value takes: two for `J` and `D`, else one.
pub open spec fn field_words(d: Seq<char>) -> nat {
    if d.len() > 0 && (d[0] == 'J' || d[0] == 'D') {
        2
    } else {
        1
    }
}

/// The first position at or after `i` holding `c`, or the length of `s`.
pub open spec fn find_char(s: Seq<char>, c: char, i: int) -> int
    decreases s.len() - i,
{
    if i < 0 || i >= s.len() {
        s.len() as int
    } else if s[i] == c {
        i
    } else {
        find_char(s, c, i + 1)
    }
}

pub proof fn lemma_find_char(s: Seq<char>, c: char, i: int)
    requires
        0 <= i,
    ensures
        find_char(s, c, i) >= i || (i > s.len() && find_char(s, c, i) == s.len()),
        find_char(s, c, i) <= s.len(),
        find_char(s, c, i) < s.len() ==> s[find_char(s, c, i)] == c,
        forall|j: int| i <= j < find_char(s, c, i) ==> s[j] != c,
    decreases s.len() - i,
{
    if i < s.len() && s[i] != c {
        lemma_find_char(s, c, i + 1);
    }
}

/// Past the run of `[` starting at `i`.
pub open spec fn skip_brackets(s: Seq<char>, i: int) -> int
    decreases s.len() - i,
{
    if 0 <= i < s.len() && s[i] == '[' {
        skip_brackets(s, i + 1)
    } else {
        i
    }
}

pub proof fn lemma_skip_brackets(s: Seq<char>, i: int)
    requires
        0 <= i,
    ensures
        skip_brackets(s, i) >= i,
        skip_brackets(s, i) < s.len() ==> s[skip_brackets(s, i)] != '[',
        forall|j: int| i <= j < skip_brackets(s, i) ==> s[j] == '[',
    decreases s.len() - i,
{
    if 0 <= i < s.len() && s[i] == '[' {
        lemma_skip_brackets(s, i + 1);
    }
}

pub open spec fn opt_add(o: Option<nat>, n: nat) -> Option<nat> {
    match o {
        Some(w) => Some(w + n),
        None => None,
    }
}

/// The stack words of the argument types listed in `a` from position `i`: two for
/// `J` and `D`, one for a class (`L...;`) or an array (`[`s then an element type),
/// and one per UTF-8 byte of anything else. `None` where a class name runs off the
/// end without its `;`, or an array has no element type.
pub open spec fn args_words(a: Seq<char>, i: int) -> Option<nat>
    decreases a.len() - i,
{
    if i < 0 || i >= a.len() {
        Some(0)
    } else if a[i] == 'J' || a[i] == 'D' {
        opt_add(args_words(a, i + 1), 2)
    } else if a[i] == 'L' {
        let j = find_char(a, ';', i);
        if j >= a.len() {
            None
        } else {
            proof {
                lemma_find_char(a, ';', i);
            }
            opt_add(args_words(a, j + 1), 1)
        }
    } else if a[i] == '[' {
        let k = skip_brackets(a, i);
        proof {
            lemma_skip_brackets(a, i);
        }
        if k >= a.len() {
            None
        } else if a[k] == 'L' {
            let j = find_char(a, ';', k);
            if j >= a.len() {
                None
            } else {
                proof {
                    lemma_find_char(a, ';', k);
                }
                opt_add(args_words(a, j + 1), 1)
            }
        } else {
            opt_add(args_words(a, k + 1), utf8_len(a[k]))
        }
    } else {
        opt_add(args_words(a, i + 1), utf8_len(a[i]))
    }
}

/// A method descriptor `(ARGS)RET` read as `(argument words, return words)`; `None`
/// where it does not start with `(`, has no `)`, has nothing after the `)`, or its
/// argument list does not read.
pub open spec fn call_words_spec(d: Seq<char>) -> Option<(nat, nat)> {
    let close = find_char(d, ')', 0);
    if d.len() == 0 || d[0] != '(' || close + 1 >= d.len() {
        None
    } else {
        let ret = d.subrange(close + 1, d.len() as int);
        match args_words(d.subrange(1, close), 0) {
            Some(w) => Some(
                (
                    w,
                    if ret == seq!['V'] {
                        0
                    } else {
                        field_words(ret)
                    },
                ),
            ),
            None => None,
        }
    }
}

/// The descriptor reads, and its argument words fit a `u16`.
pub open spec fn call_descriptor_ok(d: Seq<char>) -> bool {
    call_words_spec(d) matches Some((a, _)) && a <= u16::MAX
}

/// Word count (1 or 2, per JVMS §4.3.2/§4.10.1.5) of a single field descriptor:
/// `J`/`D` are two words, everything else is one.
pub fn descriptor_words(field_descriptor: &str) -> (r: u16)
    requires
        field_descriptor@.len() > 0,
    ensures
        r as nat == field_words(field_descriptor@),
{
    let c = field_descriptor.get_char(0);
    if c == 'J' || c == 'D' {
        2
    } else {
        1
    }
}

/// Reads a method descriptor `(ARGS)RET` as `(arg_words, return_words)`.
pub fn call_words(descriptor: &str) -> (r: (u16, u16))
    requires
        call_descriptor_ok(descriptor@),
    ensures
        call_words_spec(descriptor@) == Some((r.0 as nat, r.1 as nat)),
{
    let d = chars_of(descriptor);
    let ghost dv = d@;
    let mut close: usize = 0;
    proof {
        lemma_find_char(dv, ')', 0);
    }
    while close < d.len() && d[close] != ')'
        invariant
            close <= dv.len(),
            dv == d@,
            find_char(dv, ')', 0) == find_char(dv, ')', close as int),
        decreases dv.len() - close,
    {
        close = close + 1;
    }
    let ghost args = dv.subrange(1, close as int);
    let ghost total = args_words(args, 0)->0;
    let mut words: u16 = 0;
    let mut i: usize = 1;
    while i < close
        invariant
            1 <= i <= close + 1,
            1 <= close < dv.len(),
            dv == d@,
            args == dv.subrange(1, close as int),
            opt_add(args_words(args, i - 1), words as nat) == Some(total),
            total <= u16::MAX,
        decreases close + 1 - i,
    {
        let c = d[i];
        let ghost k = i - 1;
        assert(args[k] == c);
        if c == 'J' || c == 'D' {
            words = words + 2;
            i = i + 1;
        } else if c == 'L' {
            let ghost semi = find_char(args, ';', k);
            proof {
                lemma_find_char(args, ';', k);
            }
            while d[i] != ';'
                invariant
                    0 <= k <= i - 1 <= semi < args.len(),
                    1 <= close < dv.len(),
                    dv == d@,
                    args == dv.subrange(1, close as int),
                    args.len() == close - 1,
                    args[semi] == ';',
                    forall|j: int| k <= j < semi ==> args[j] != ';',
                decreases close - i,
            {
                assert(args[i - 1] == d@[i as int]);
                i = i + 1;
            }
            assert(args[i - 1] == d@[i as int]);
            assert(i - 1 == semi);
            words = words + 1;
            i = i + 1;
        } else if c == '[' {
            let ghost kk = skip_brackets(args, k);
            proof {
                lemma_skip_brackets(args, k);
            }
            while d[i] == '['
                invariant
                    0 <= k <= i - 1 <= kk < args.len(),
                    1 <= close < dv.len(),
                    dv == d@,
                    args == dv.subrange(1, close as int),
                    args.len() == close - 1,
                    args[kk] != '[',
                    forall|j: int| k <= j < kk ==> args[j] == '[',
                decreases close - i,
            {
                assert(args[i - 1] == d@[i as int]);
                i = i + 1;
            }
            assert(args[i - 1] == d@[i as int]);
            assert(i - 1 == kk);
            if d[i] == 'L' {
                let ghost semi = find_char(args, ';', kk);
                proof {
                    lemma_find_char(args, ';', kk);
                }
                while d[i] != ';'
                    invariant
                        0 <= kk <= i - 1 <= semi < args.len(),
                        1 <= close < dv.len(),
                        dv == d@,
                        args == dv.subrange(1, close as int),
                        args.len() == close - 1,
                        args[semi] == ';',
                        forall|j: int| kk <= j < semi ==> args[j] != ';',
                    decreases close - i,
                {
                    assert(args[i - 1] == d@[i as int]);
                    i = i + 1;
                }
                assert(args[i - 1] == d@[i as int]);
                assert(i - 1 == semi);
                i = i + 1;
                words = words + 1;
            } else {
                let n = crate::span::char_utf8_len(d[i]) as u16;
                words = words + n;
                i = i + 1;
            }
        } else {
            let n = crate::span::char_utf8_len(c) as u16;
            words = words + n;
            i = i + 1;
        }
    }
    let ret = if close + 2 == d.len() && d[close + 1] == 'V' {
        0
    } else if d[close + 1] == 'J' || d[close + 1] == 'D' {
        2
    } else {
        1
    };
    proof {
        let r = dv.subrange(close + 1, dv.len() as int);
        if close + 2 == dv.len() && dv[close + 1] == 'V' {
            assert(r =~= seq!['V']);
        } else if r == seq!['V'] {
            assert(r.len() == 1 && r[0] == 'V');
        }
    }
    (words, ret)
}

pub struct CodeBuilder {
    code: Vec<u8>,
    stack: i32,
    max_stack: u16,
    max_locals: u16,
}

impl CodeBuilder {
    pub closed spec fn view(&self) -> CodeView {
        CodeView {
            code: self.code@,
            stack: self.stack as int,
            max_stack: self.max_stack as int,
            max_locals: self.max_locals as int,
        }
    }

    pub open spec fn wf(&self) -> bool {
        code_wf(self.view())
    }

    /// The stack depth the next instruction starts from.
    pub open spec fn depth(&self) -> int {
        self.view().stack
    }

    pub fn new() -> (r: CodeBuilder)
        ensures
            r.wf(),
            r.view() == (CodeView { code: Seq::empty(), stack: 0, max_stack: 0, max_locals: 1 }),
    {
        CodeBuilder { code: Vec::new(), stack: 0, max_stack: 0, max_locals: 1 }
    }

    /// The current stack depth.
    pub fn stack_depth(&self) -> (r: i32)
        ensures
            r as int == self.depth(),
    {
        self.stack
    }

    fn adjust_by(&mut self, words: i32)
        requires
            old(self).wf(),
            0 <= old(self).depth() + words <= u16::MAX,
        ensures
            final(self).view() == adjust(old(self).view(), words as int),
            final(self).wf(),
    {
        let st = self.stack + words;
        self.stack = st;
        if st > self.max_stack as i32 {
            self.max_stack = st as u16;
        }
    }

    fn touch_local(&mut self, slot: u16, width: u16)
        requires
            old(self).wf(),
            slot + width <= u16::MAX,
        ensures
            final(self).view() == touch(old(self).view(), slot, width as nat),
            final(self).wf(),
    {
        if slot + width > self.max_locals {
            self.max_locals = slot + width;
        }
    }

    fn u8_(&mut self, b: u8)
        ensures
            final(self).view() == emit(old(self).view(), seq![b]),
    {
        self.code.push(b);
        assert(self.view().code =~= old(self).view().code + seq![b]);
        assert(self.view() == emit(old(self).view(), seq![b]));
    }

    fn u16_(&mut self, v: u16)
        ensures
            final(self).view() == emit(old(self).view(), be16(v)),
    {
        super::pool::push_be16(&mut self.code, v);
        assert(self.view() == emit(old(self).view(), be16(v)));
    }

    fn ldc(&mut self, idx: u16)
        ensures
            final(self).view() == emit(old(self).view(), ldc_bytes(idx as nat)),
    {
        if idx <= 0xff {
            self.u8_(0x12);
            self.u8_(idx as u8);
            assert(self.view().code =~= old(self).view().code + ldc_bytes(idx as nat));
        } else {
            self.u8_(0x13);
            self.u16_(idx);
            assert(self.view().code =~= old(self).view().code + ldc_bytes(idx as nat));
        }
        assert(self.view() == emit(old(self).view(), ldc_bytes(idx as nat)));
    }

    // --- constants ---

    pub fn push_int(&mut self, v: i32, pool: &mut ConstantPool)
        requires
            old(self).wf(),
            old(self).depth() + 1 <= u16::MAX,
            old(pool).wf(),
            old(pool).has_room(1),
        ensures
            final(self).wf(),
            final(pool).wf(),
            (final(self).view(), final(pool).consts()) == push_int_spec(
                old(self).view(),
                old(pool).consts(),
                v,
            ),
            old(pool).next() <= final(pool).next() <= old(pool).next() + 1,
    {
        let ghost v0 = self.view();
        if -1 <= v && v <= 5 {
            self.u8_((0x03 + v) as u8);
            assert(self.view() == emit(v0, seq![(0x03 + v) as u8]));
        } else if -128 <= v && v <= 127 {
            self.u8_(0x10);
            let b: u8 = if v < 0 {
                (v + 256) as u8
            } else {
                v as u8
            };
            self.u8_(b);
            assert(self.view().code =~= v0.code + seq![0x10u8, low_byte(v as int)]);
            assert(self.view() == emit(v0, seq![0x10u8, low_byte(v as int)]));
        } else if -32768 <= v && v <= 32767 {
            self.u8_(0x11);
            let w: u16 = if v < 0 {
                (v + 65536) as u16
            } else {
                v as u16
            };
            self.u16_(w);
            assert(self.view().code =~= v0.code + (seq![0x11u8] + be16(low_word(v as int))));
            assert(self.view() == emit(v0, seq![0x11u8] + be16(low_word(v as int))));
        } else {
            let idx = pool.integer(v);
            self.ldc(idx);
        }
        self.adjust_by(1);
    }

    pub fn push_long(&mut self, v: i64, pool: &mut ConstantPool)
        requires
            old(self).wf(),
            old(self).depth() + 2 <= u16::MAX,
            old(pool).wf(),
            old(pool).has_room(2),
        ensures
            final(self).wf(),
            final(pool).wf(),
            (final(self).view(), final(pool).consts()) == push_long_spec(
                old(self).view(),
                old(pool).consts(),
                v,
            ),
            old(pool).next() <= final(pool).next() <= old(pool).next() + 2,
    {
        let ghost v0 = self.view();
        if v == 0 {
            self.u8_(0x09);
        } else if v == 1 {
            self.u8_(0x0a);
        } else {
            let idx = pool.long(v);
            self.u8_(0x14);
            self.u16_(idx);
            assert(self.view().code =~= v0.code + (seq![0x14u8] + be16(idx)));
        }
        self.adjust_by(2);
    }

    pub fn push_string(&mut self, s: &str, pool: &mut ConstantPool)
        requires
            old(self).wf(),
            old(self).depth() + 1 <= u16::MAX,
            old(pool).wf(),
            old(pool).has_room(2),
        ensures
            final(self).wf(),
            final(pool).wf(),
            (final(self).view(), final(pool).consts()) == push_string_spec(
                old(self).view(),
                old(pool).consts(),
                s@,
            ),
            old(pool).next() <= final(pool).next() <= old(pool).next() + 2,
    {
        let idx = pool.string(s);
        self.ldc(idx);
        self.adjust_by(1);
    }

    // --- locals ---

    pub fn aload_this(&mut self)
        requires
            old(self).wf(),
            old(self).depth() + 1 <= u16::MAX,
        ensures
            final(self).wf(),
            final(self).view() == local_spec(old(self).view(), 0x2a, 0x19, 0, 1, 1),
    {
        self.u8_(0x2a);
        self.adjust_by(1);
        self.touch_local(0, 1);
    }

    pub fn aload(&mut self, slot: u16)
        requires
            old(self).wf(),
            old(self).depth() + 1 <= u16::MAX,
            slot < u16::MAX,
        ensures
            final(self).wf(),
            final(self).view() == local_spec(old(self).view(), 0x2a, 0x19, slot, 1, 1),
    {
        self.local_op(0x2a, 0x19, slot);
        self.adjust_by(1);
        self.touch_local(slot, 1);
    }

    pub fn astore(&mut self, slot: u16)
        requires
            old(self).wf(),
            old(self).depth() >= 1,
            slot < u16::MAX,
        ensures
            final(self).wf(),
            final(self).view() == local_spec(old(self).view(), 0x4b, 0x3a, slot, -1, 1),
    {
        self.local_op(0x4b, 0x3a, slot);
        self.adjust_by(-1);
        self.touch_local(slot, 1);
    }

    pub fn lload(&mut self, slot: u16)
        requires
            old(self).wf(),
            old(self).depth() + 2 <= u16::MAX,
            slot + 2 <= u16::MAX,
        ensures
            final(self).wf(),
            final(self).view() == local_spec(old(self).view(), 0x1e, 0x16, slot, 2, 2),
    {
        self.local_op(0x1e, 0x16, slot);
        self.adjust_by(2);
        self.touch_local(slot, 2);
    }

    pub fn lstore(&mut self, slot: u16)
        requires
            old(self).wf(),
            old(self).depth() >= 2,
            slot + 2 <= u16::MAX,
        ensures
            final(self).wf(),
            final(self).view() == local_spec(old(self).view(), 0x3f, 0x37, slot, -2, 2),
    {
        self.local_op(0x3f, 0x37, slot);
        self.adjust_by(-2);
        self.touch_local(slot, 2);
    }

    fn local_op(&mut self, short: u8, long: u8, slot: u16)
        requires
            short <= 0xfb,
        ensures
            final(self).view() == emit(old(self).view(), local_bytes(short, long, slot)),
    {
        if slot <= 3 {
            self.u8_(short + slot as u8);
        } else {
            self.u8_(long);
            self.u8_((slot % 256) as u8);
            assert(self.view().code =~= old(self).view().code + local_bytes(short, long, slot));
        }
    }

    // --- arrays ---

    pub fn newarray_primitive(&mut self, atype: u8)
        requires
            old(self).wf(),
            old(self).depth() >= 1,
        ensures
            final(self).wf(),
            final(self).view() == emit(old(self).view(), seq![0xbcu8, atype]),
    {
        self.u8_(0xbc);
        self.u8_(atype);
        assert(self.view().code =~= old(self).view().code + seq![0xbcu8, atype]);
    }

    pub fn anewarray(&mut self, class_internal: &str, pool: &mut ConstantPool)
        requires
            old(self).wf(),
            old(self).depth() >= 1,
            old(pool).wf(),
            old(pool).has_room(2),
        ensures
            final(self).wf(),
            final(pool).wf(),
            (final(self).view(), final(pool).consts()) == class_op_spec(
                old(self).view(),
                old(pool).consts(),
                0xbd,
                class_internal@,
                0,
            ),
            old(pool).next() <= final(pool).next() <= old(pool).next() + 2,
    {
        let idx = pool.class(class_internal);
        self.u8_(0xbd);
        self.u16_(idx);
        assert(self.view().code =~= old(self).view().code + (seq![0xbdu8] + be16(idx)));
        self.adjust_by(0);
    }

    pub fn dup(&mut self)
        requires
            old(self).wf(),
            old(self).depth() >= 1,
            old(self).depth() + 1 <= u16::MAX,
        ensures
            final(self).wf(),
            final(self).view() == simple_spec(old(self).view(), 0x59, 1),
    {
        self.u8_(0x59);
        self.adjust_by(1);
    }

    pub fn aastore(&mut self)
        requires
            old(self).wf(),
            old(self).depth() >= 3,
        ensures
            final(self).wf(),
            final(self).view() == simple_spec(old(self).view(), 0x53, -3),
    {
        self.u8_(0x53);
        self.adjust_by(-3);
    }

    pub fn iastore(&mut self)
        requires
            old(self).wf(),
            old(self).depth() >= 3,
        ensures
            final(self).wf(),
            final(self).view() == simple_spec(old(self).view(), 0x4f, -3),
    {
        self.u8_(0x4f);
        self.adjust_by(-3);
    }

    pub fn bastore(&mut self)
        requires
            old(self).wf(),
            old(self).depth() >= 3,
        ensures
            final(self).wf(),
            final(self).view() == simple_spec(old(self).view(), 0x54, -3),
    {
        self.u8_(0x54);
        self.adjust_by(-3);
    }

    pub fn laload(&mut self)
        requires
            old(self).wf(),
            old(self).depth() >= 2,
        ensures
            final(self).wf(),
            final(self).view() == adjust(simple_spec(old(self).view(), 0x2f, -2), 2),
    {
        self.u8_(0x2f);
        self.adjust_by(-2);
        self.adjust_by(2);
    }

    // --- fields ---

    fn member_op(
        &mut self,
        op: u8,
        method: bool,
        class_internal: &str,
        name: &str,
        descriptor: &str,
        pops: u16,
        pushes: u16,
        pool: &mut ConstantPool,
    )
        requires
            old(self).wf(),
            old(self).depth() >= pops,
            old(self).depth() - pops + pushes <= u16::MAX,
            old(pool).wf(),
            old(pool).has_room(6),
        ensures
            final(self).wf(),
            final(pool).wf(),
            (final(self).view(), final(pool).consts()) == member_spec(
                old(self).view(),
                old(pool).consts(),
                op,
                method,
                class_internal@,
                name@,
                descriptor@,
                pops as int,
                pushes as int,
            ),
            old(pool).next() <= final(pool).next() <= old(pool).next() + 6,
    {
        let idx = if method {
            pool.methodref(class_internal, name, descriptor)
        } else {
            pool.fieldref(class_internal, name, descriptor)
        };
        self.u8_(op);
        self.u16_(idx);
        assert(self.view().code =~= old(self).view().code + (seq![op] + be16(idx)));
        self.adjust_by(-(pops as i32));
        self.adjust_by(pushes as i32);
    }

    pub fn getfield(&mut self, class_internal: &str, name: &str, descriptor: &str, pool: &mut ConstantPool)
        requires
            old(self).wf(),
            descriptor@.len() > 0,
            old(self).depth() >= 1,
            old(self).depth() - 1 + field_words(descriptor@) <= u16::MAX,
            old(pool).wf(),
            old(pool).has_room(6),
        ensures
            final(self).wf(),
            final(pool).wf(),
            (final(self).view(), final(pool).consts()) == member_spec(
                old(self).view(),
                old(pool).consts(),
                0xb4,
                false,
                class_internal@,
                name@,
                descriptor@,
                1,
                field_words(descriptor@) as int,
            ),
            old(pool).next() <= final(pool).next() <= old(pool).next() + 6,
    {
        let w = descriptor_words(descriptor);
        self.member_op(0xb4, false, class_internal, name, descriptor, 1, w, pool);
    }

    pub fn putfield(&mut self, class_internal: &str, name: &str, descriptor: &str, pool: &mut ConstantPool)
        requires
            old(self).wf(),
            descriptor@.len() > 0,
            old(self).depth() >= 1 + field_words(descriptor@),
            old(pool).wf(),
            old(pool).has_room(6),
        ensures
            final(self).wf(),
            final(pool).wf(),
            (final(self).view(), final(pool).consts()) == member_spec(
                old(self).view(),
                old(pool).consts(),
                0xb5,
                false,
                class_internal@,
                name@,
                descriptor@,
                1 + field_words(descriptor@) as int,
                0,
            ),
            old(pool).next() <= final(pool).next() <= old(pool).next() + 6,
    {
        let w = descriptor_words(descriptor);
        self.member_op(0xb5, false, class_internal, name, descriptor, 1 + w, 0, pool);
    }

    pub fn getstatic(&mut self, class_internal: &str, name: &str, descriptor: &str, pool: &mut ConstantPool)
        requires
            old(self).wf(),
            descriptor@.len() > 0,
            old(self).depth() + field_words(descriptor@) <= u16::MAX,
            old(pool).wf(),
            old(pool).has_room(6),
        ensures
            final(self).wf(),
            final(pool).wf(),
            (final(self).view(), final(pool).consts()) == member_spec(
                old(self).view(),
                old(pool).consts(),
                0xb2,
                false,
                class_internal@,
                name@,
                descriptor@,
                0,
                field_words(descriptor@) as int,
            ),
            old(pool).next() <= final(pool).next() <= old(pool).next() + 6,
    {
        let w = descriptor_words(descriptor);
        self.member_op(0xb2, false, class_internal, name, descriptor, 0, w, pool);
    }

    pub fn putstatic(&mut self, class_internal: &str, name: &str, descriptor: &str, pool: &mut ConstantPool)
        requires
            old(self).wf(),
            descriptor@.len() > 0,
            old(self).depth() >= field_words(descriptor@),
            old(pool).wf(),
            old(pool).has_room(6),
        ensures
            final(self).wf(),
            final(pool).wf(),
            (final(self).view(), final(pool).consts()) == member_spec(
                old(self).view(),
                old(pool).consts(),
                0xb3,
                false,
                class_internal@,
                name@,
                descriptor@,
                field_words(descriptor@) as int,
                0,
            ),
            old(pool).next() <= final(pool).next() <= old(pool).next() + 6,
    {
        let w = descriptor_words(descriptor);
        self.member_op(0xb3, false, class_internal, name, descriptor, w, 0, pool);
    }

    // --- calls ---

    pub fn new_(&mut self, class_internal: &str, pool: &mut ConstantPool)
        requires
            old(self).wf(),
            old(self).depth() + 1 <= u16::MAX,
            old(pool).wf(),
            old(pool).has_room(2),
        ensures
            final(self).wf(),
            final(pool).wf(),
            (final(self).view(), final(pool).consts()) == class_op_spec(
                old(self).view(),
                old(pool).consts(),
                0xbb,
                class_internal@,
                1,
            ),
            old(pool).next() <= final(pool).next() <= old(pool).next() + 2,
    {
        let idx = pool.class(class_internal);
        self.u8_(0xbb);
        self.u16_(idx);
        assert(self.view().code =~= old(self).view().code + (seq![0xbbu8] + be16(idx)));
        self.adjust_by(1);
    }

    pub fn invokespecial(&mut self, class_internal: &str, name: &str, descriptor: &str, pool: &mut ConstantPool)
        requires
            old(self).wf(),
            call_descriptor_ok(descriptor@),
            old(self).depth() >= 1 + args_of(descriptor@),
            old(self).depth() - 1 - args_of(descriptor@) + ret_of(descriptor@) <= u16::MAX,
            old(pool).wf(),
            old(pool).has_room(6),
        ensures
            final(self).wf(),
            final(pool).wf(),
            (final(self).view(), final(pool).consts()) == member_spec(
                old(self).view(),
                old(pool).consts(),
                0xb7,
                true,
                class_internal@,
                name@,
                descriptor@,
                1 + args_of(descriptor@),
                ret_of(descriptor@),
            ),
            old(pool).next() <= final(pool).next() <= old(pool).next() + 6,
    {
        let (args, ret) = call_words(descriptor);
        self.member_op(0xb7, true, class_internal, name, descriptor, 1 + args, ret, pool);
    }

    pub fn invokevirtual(&mut self, class_internal: &str, name: &str, descriptor: &str, pool: &mut ConstantPool)
        requires
            old(self).wf(),
            call_descriptor_ok(descriptor@),
            old(self).depth() >= 1 + args_of(descriptor@),
            old(self).depth() - 1 - args_of(descriptor@) + ret_of(descriptor@) <= u16::MAX,
            old(pool).wf(),
            old(pool).has_room(6),
        ensures
            final(self).wf(),
            final(pool).wf(),
            (final(self).view(), final(pool).consts()) == member_spec(
                old(self).view(),
                old(pool).consts(),
                0xb6,
                true,
                class_internal@,
                name@,
                descriptor@,
                1 + args_of(descriptor@),
                ret_of(descriptor@),
            ),
            old(pool).next() <= final(pool).next() <= old(pool).next() + 6,
    {
        let (args, ret) = call_words(descriptor);
        self.member_op(0xb6, true, class_internal, name, descriptor, 1 + args, ret, pool);
    }

    pub fn invokestatic(&mut self, class_internal: &str, name: &str, descriptor: &str, pool: &mut ConstantPool)
        requires
            old(self).wf(),
            call_descriptor_ok(descriptor@),
            old(self).depth() >= args_of(descriptor@),
            old(self).depth() - args_of(descriptor@) + ret_of(descriptor@) <= u16::MAX,
            old(pool).wf(),
            old(pool).has_room(6),
        ensures
            final(self).wf(),
            final(pool).wf(),
            (final(self).view(), final(pool).consts()) == member_spec(
                old(self).view(),
                old(pool).consts(),
                0xb8,
                true,
                class_internal@,
                name@,
                descriptor@,
                args_of(descriptor@),
                ret_of(descriptor@),
            ),
            old(pool).next() <= final(pool).next() <= old(pool).next() + 6,
    {
        let (args, ret) = call_words(descriptor);
        self.member_op(0xb8, true, class_internal, name, descriptor, args, ret, pool);
    }

    // --- arithmetic ---

    pub fn ladd(&mut self)
        requires
            old(self).wf(),
            old(self).depth() >= 4,
        ensures
            final(self).wf(),
            final(self).view() == simple_spec(old(self).view(), 0x61, -2),
    {
        self.u8_(0x61);
        self.adjust_by(-2);
    }

    pub fn lsub(&mut self)
        requires
            old(self).wf(),
            old(self).depth() >= 4,
        ensures
            final(self).wf(),
            final(self).view() == simple_spec(old(self).view(), 0x65, -2),
    {
        self.u8_(0x65);
        self.adjust_by(-2);
    }

    pub fn lmul(&mut self)
        requires
            old(self).wf(),
            old(self).depth() >= 4,
        ensures
            final(self).wf(),
            final(self).view() == simple_spec(old(self).view(), 0x69, -2),
    {
        self.u8_(0x69);
        self.adjust_by(-2);
    }

    pub fn ldiv(&mut self)
        requires
            old(self).wf(),
            old(self).depth() >= 4,
        ensures
            final(self).wf(),
            final(self).view() == simple_spec(old(self).view(), 0x6d, -2),
    {
        self.u8_(0x6d);
        self.adjust_by(-2);
    }

    pub fn lrem(&mut self)
        requires
            old(self).wf(),
            old(self).depth() >= 4,
        ensures
            final(self).wf(),
            final(self).view() == simple_spec(old(self).view(), 0x71, -2),
    {
        self.u8_(0x71);
        self.adjust_by(-2);
    }

    // --- returns ---

    pub fn return_void(&mut self)
        requires
            old(self).wf(),
        ensures
            final(self).wf(),
            final(self).view() == emit(old(self).view(), seq![0xb1u8]),
    {
        self.u8_(0xb1);
    }

    pub fn areturn(&mut self)
        requires
            old(self).wf(),
            old(self).depth() >= 1,
        ensures
            final(self).wf(),
            final(self).view() == simple_spec(old(self).view(), 0xb0, -1),
    {
        self.u8_(0xb0);
        self.adjust_by(-1);
    }

    /// Finishes the method: `(max_stack, max_locals, code_bytes)` for a `Code`
    /// attribute.
    pub fn finish(self) -> (r: (u16, u16, Vec<u8>))
        ensures
            r.0 as int == self.view().max_stack,
            r.1 as int == self.view().max_locals,
            r.2@ == self.view().code,
    {
        (self.max_stack, self.max_locals, self.code)
    }
}

impl Default for CodeBuilder {
    fn default() -> (r: CodeBuilder)
        ensures
            r.wf(),
            r.view() == (CodeView { code: Seq::empty(), stack: 0, max_stack: 0, max_locals: 1 }),
    {
        CodeBuilder::new()
    }
}

} // verus!
