//! Assembles a `.class` file (JVMS §4.1) from a `ConstantPool` plus a list of fields
//! and methods. Targets major version 61 (Java 17), which a Java 21 runtime still
//! loads and verifies with no special flag.

use vstd::prelude::*;
use super::code::CodeBuilder;
use super::pool::{
    be16, be32, consts_bytes, next_index, push_be16, push_be32, push_bytes, with_class,
    with_utf8, ConstantPool, Const,
};

verus! {

pub const MAJOR_VERSION: u16 = 61;

pub const ACC_PUBLIC: u16 = 0x0001;
pub const ACC_PRIVATE: u16 = 0x0002;
pub const ACC_STATIC: u16 = 0x0008;
pub const ACC_FINAL: u16 = 0x0010;
pub const ACC_SUPER: u16 = 0x0020;

/// A field: access flags, and the pool indices of its name and descriptor.
#[derive(Clone, Copy)]
pub struct Field {
    pub access: u16,
    pub name_index: u16,
    pub descriptor_index: u16,
}

/// A method: access flags, the pool indices of its name and descriptor, and its
/// `Code` attribute's contents.
pub struct Method {
    pub access: u16,
    pub name_index: u16,
    pub descriptor_index: u16,
    pub max_stack: u16,
    pub max_locals: u16,
    pub code: Vec<u8>,
}

/// What a field entry holds: access flags, name index, descriptor index.
pub type FieldView = (u16, u16, u16);

/// What a method entry holds: access flags, name index, descriptor index, max
/// stack, max locals, and the bytecode.
pub type MethodView = (u16, u16, u16, u16, u16, Seq<u8>);

/// A field entry's bytes: no attributes.
pub open spec fn field_bytes(f: FieldView) -> Seq<u8> {
    be16(f.0) + be16(f.1) + be16(f.2) + be16(0)
}

pub open spec fn fields_bytes(fs: Seq<FieldView>) -> Seq<u8>
    decreases fs.len(),
{
    if fs.len() == 0 {
        Seq::empty()
    } else {
        fields_bytes(fs.drop_last()) + field_bytes(fs.last())
    }
}

/// A `Code` attribute's body: max stack, max locals, the code with its length, and
/// empty exception and attribute tables.
pub open spec fn code_attr_bytes(m: MethodView) -> Seq<u8> {
    be16(m.3) + be16(m.4) + be32(m.5.len() as u32) + m.5 + be16(0) + be16(0)
}

/// A method entry's bytes: one attribute, `Code`, named by pool index `code_name`.
pub open spec fn method_bytes(m: MethodView, code_name: u16) -> Seq<u8> {
    be16(m.0) + be16(m.1) + be16(m.2) + be16(1) + be16(code_name) + be32(
        code_attr_bytes(m).len() as u32,
    ) + code_attr_bytes(m)
}

pub open spec fn methods_bytes(ms: Seq<MethodView>, code_name: u16) -> Seq<u8>
    decreases ms.len(),
{
    if ms.len() == 0 {
        Seq::empty()
    } else {
        methods_bytes(ms.drop_last(), code_name) + method_bytes(ms.last(), code_name)
    }
}

/// A whole class file: magic, version 61.0, the pool, `public final super` access,
/// this and super class, no interfaces, the fields, the methods, and no attributes.
pub open spec fn class_bytes(
    pool: Seq<Const>,
    this_class: u16,
    super_class: u16,
    fields: Seq<FieldView>,
    methods: Seq<MethodView>,
    code_name: u16,
) -> Seq<u8> {
    be32(0xCAFEBABE) + be16(0) + be16(MAJOR_VERSION) + be16(next_index(pool) as u16)
        + consts_bytes(pool) + be16(ACC_PUBLIC | ACC_FINAL | ACC_SUPER) + be16(this_class)
        + be16(super_class) + be16(0) + be16(fields.len() as u16) + fields_bytes(fields)
        + be16(methods.len() as u16) + methods_bytes(methods, code_name) + be16(0)
}

pub open spec fn method_view(m: Method) -> MethodView {
    (m.access, m.name_index, m.descriptor_index, m.max_stack, m.max_locals, m.code@)
}

pub struct ClassFile {
    pub pool: ConstantPool,
    pub this_class: u16,
    pub super_class: u16,
    pub fields: Vec<Field>,
    pub methods: Vec<Method>,
    pub code_attr_name: u16,
}

impl ClassFile {
    pub open spec fn this_index(&self) -> u16 {
        self.this_class
    }

    pub open spec fn super_index(&self) -> u16 {
        self.super_class
    }

    pub open spec fn code_name_index(&self) -> u16 {
        self.code_attr_name
    }

    pub open spec fn fields_view(&self) -> Seq<FieldView> {
        self.fields@.map_values(|f: Field| (f.access, f.name_index, f.descriptor_index))
    }

    pub open spec fn methods_view(&self) -> Seq<MethodView> {
        self.methods@.map_values(|m: Method| method_view(m))
    }

    /// `this_internal`/`super_internal` are internal (slash-separated) class names,
    /// e.g. `"Coffee"` or `"balanc/runtime/Ledger"`.
    pub fn new(this_internal: &str, super_internal: &str) -> (r: ClassFile)
        ensures
            r.pool.wf(),
            r.pool.consts() == with_utf8(
                with_class(with_class(Seq::empty(), this_internal@).0, super_internal@).0,
                "Code"@,
            ).0,
            r.this_index() as nat == with_class(Seq::empty(), this_internal@).1,
            r.super_index() as nat == with_class(
                with_class(Seq::empty(), this_internal@).0,
                super_internal@,
            ).1,
            r.code_name_index() as nat == with_utf8(
                with_class(with_class(Seq::empty(), this_internal@).0, super_internal@).0,
                "Code"@,
            ).1,
            r.pool.next() <= 6,
            r.fields_view() == Seq::<FieldView>::empty(),
            r.methods_view() == Seq::<MethodView>::empty(),
    {
        let mut pool = ConstantPool::new();
        let this_class = pool.class(this_internal);
        let super_class = pool.class(super_internal);
        let code_attr_name = pool.utf8("Code");
        let r = ClassFile {
            pool,
            this_class,
            super_class,
            fields: Vec::new(),
            methods: Vec::new(),
            code_attr_name,
        };
        assert(r.fields_view() =~= Seq::<FieldView>::empty());
        assert(r.methods_view() =~= Seq::<MethodView>::empty());
        r
    }

    pub fn add_field(&mut self, access: u16, name: &str, descriptor: &str)
        requires
            old(self).pool.wf(),
            old(self).pool.has_room(2),
        ensures
            final(self).pool.wf(),
            final(self).pool.consts() == with_utf8(
                with_utf8(old(self).pool.consts(), name@).0,
                descriptor@,
            ).0,
            final(self).fields_view() == old(self).fields_view().push(
                (
                    access,
                    with_utf8(old(self).pool.consts(), name@).1 as u16,
                    with_utf8(with_utf8(old(self).pool.consts(), name@).0, descriptor@).1 as u16,
                ),
            ),
            final(self).methods_view() == old(self).methods_view(),
            final(self).this_index() == old(self).this_index(),
            final(self).super_index() == old(self).super_index(),
            final(self).code_name_index() == old(self).code_name_index(),
            final(self).pool.next() <= old(self).pool.next() + 2,
    {
        let name_index = self.pool.utf8(name);
        let descriptor_index = self.pool.utf8(descriptor);
        self.fields.push(Field { access, name_index, descriptor_index });
        assert(self.fields_view() =~= old(self).fields_view().push(
            (access, name_index, descriptor_index),
        ));
    }

    pub fn add_method(&mut self, access: u16, name: &str, descriptor: &str, body: CodeBuilder)
        requires
            old(self).pool.wf(),
            old(self).pool.has_room(2),
        ensures
            final(self).pool.wf(),
            final(self).pool.consts() == with_utf8(
                with_utf8(old(self).pool.consts(), name@).0,
                descriptor@,
            ).0,
            final(self).methods_view() == old(self).methods_view().push(
                (
                    access,
                    with_utf8(old(self).pool.consts(), name@).1 as u16,
                    with_utf8(with_utf8(old(self).pool.consts(), name@).0, descriptor@).1 as u16,
                    body.view().max_stack as u16,
                    body.view().max_locals as u16,
                    body.view().code,
                ),
            ),
            final(self).fields_view() == old(self).fields_view(),
            final(self).this_index() == old(self).this_index(),
            final(self).super_index() == old(self).super_index(),
            final(self).code_name_index() == old(self).code_name_index(),
            final(self).pool.next() <= old(self).pool.next() + 2,
    {
        let name_index = self.pool.utf8(name);
        let descriptor_index = self.pool.utf8(descriptor);
        let (max_stack, max_locals, code) = body.finish();
        let ghost cv = code@;
        self.methods.push(
            Method { access, name_index, descriptor_index, max_stack, max_locals, code },
        );
        assert(self.methods_view() =~= old(self).methods_view().push(
            (access, name_index, descriptor_index, max_stack, max_locals, cv),
        ));
    }

    pub fn to_bytes(&self) -> (r: Vec<u8>)
        requires
            self.pool.wf(),
        ensures
            r@ == class_bytes(
                self.pool.consts(),
                self.this_index(),
                self.super_index(),
                self.fields_view(),
                self.methods_view(),
                self.code_name_index(),
            ),
    {
        let mut out: Vec<u8> = Vec::new();
        push_be32(&mut out, 0xCAFEBABE);
        push_be16(&mut out, 0);
        push_be16(&mut out, MAJOR_VERSION);
        self.pool.write(&mut out);
        push_be16(&mut out, ACC_PUBLIC | ACC_FINAL | ACC_SUPER);
        push_be16(&mut out, self.this_class);
        push_be16(&mut out, self.super_class);
        push_be16(&mut out, 0);
        push_be16(&mut out, #[verifier::truncate] (self.fields.len() as u16));
        let ghost head = out@;
        let ghost fv = self.fields_view();
        let mut i: usize = 0;
        proof {
            assert(fv.take(0) =~= Seq::<FieldView>::empty());
        }
        while i < self.fields.len()
            invariant
                i <= self.fields@.len(),
                fv == self.fields_view(),
                out@ == head + fields_bytes(fv.take(i as int)),
            decreases self.fields@.len() - i,
        {
            let f = self.fields[i];
            let ghost before = out@;
            push_be16(&mut out, f.access);
            push_be16(&mut out, f.name_index);
            push_be16(&mut out, f.descriptor_index);
            push_be16(&mut out, 0);
            proof {
                assert(fv[i as int] == (f.access, f.name_index, f.descriptor_index));
                assert(out@ =~= before + field_bytes(fv[i as int]));
                assert(fv.take(i + 1).drop_last() =~= fv.take(i as int));
            }
            i = i + 1;
        }
        proof {
            assert(fv.take(i as int) =~= fv);
        }
        push_be16(&mut out, #[verifier::truncate] (self.methods.len() as u16));
        let ghost head2 = out@;
        let ghost mv = self.methods_view();
        let mut j: usize = 0;
        proof {
            assert(mv.take(0) =~= Seq::<MethodView>::empty());
        }
        while j < self.methods.len()
            invariant
                j <= self.methods@.len(),
                mv == self.methods_view(),
                out@ == head2 + methods_bytes(mv.take(j as int), self.code_attr_name),
            decreases self.methods@.len() - j,
        {
            let m = &self.methods[j];
            let ghost before = out@;
            push_be16(&mut out, m.access);
            push_be16(&mut out, m.name_index);
            push_be16(&mut out, m.descriptor_index);
            push_be16(&mut out, 1);
            let mut code_attr: Vec<u8> = Vec::new();
            push_be16(&mut code_attr, m.max_stack);
            push_be16(&mut code_attr, m.max_locals);
            push_be32(&mut code_attr, #[verifier::truncate] (m.code.len() as u32));
            push_bytes(&mut code_attr, m.code.as_slice());
            push_be16(&mut code_attr, 0);
            push_be16(&mut code_attr, 0);
            proof {
                assert(mv[j as int] == method_view(*m));
                assert(code_attr@ =~= code_attr_bytes(mv[j as int]));
            }
            push_be16(&mut out, self.code_attr_name);
            push_be32(&mut out, #[verifier::truncate] (code_attr.len() as u32));
            push_bytes(&mut out, code_attr.as_slice());
            proof {
                assert(out@ =~= before + method_bytes(mv[j as int], self.code_attr_name));
                assert(mv.take(j + 1).drop_last() =~= mv.take(j as int));
            }
            j = j + 1;
        }
        proof {
            assert(mv.take(j as int) =~= mv);
        }
        push_be16(&mut out, 0);
        assert(out@ =~= class_bytes(
            self.pool.consts(),
            self.this_class,
            self.super_class,
            fv,
            mv,
            self.code_attr_name,
        ));
        out
    }
}

} // verus!
