//! The tables of the knowledge base and the look-ups by name.
use crate::text::is;
use vstd::prelude::*;

verus! {

/// A search result row.
#[derive(Debug, Clone)]
pub struct Hit {
    pub name: String,
    /// `function` | `constant` | `enum-val` | `struct` | `union` | `enum` | …
    pub kind: String,
    /// DLL for functions, value-kind for constants, qualified name for types, …
    pub detail: String,
}

/// An autocomplete candidate (a prefix match).
#[derive(Debug, Clone, PartialEq, Eq)]
pub struct Completion {
    pub name: String,
    /// `function` | `constant` | `enum-val` | a type kind | `field`.
    pub kind: String,
    /// DLL / value-kind / qualified name / field type, by kind.
    pub detail: String,
}

/// An x86-64 instruction explainer entry.
#[derive(Debug, Clone)]
pub struct Instruction {
    pub mnemonic: String,
    pub category: String,
    /// Flags the instruction affects, e.g. `ZF SF CF OF` — or empty / `none`.
    pub flags: String,
    pub summary: String,
    pub description: String,
}

/// A WRASM dialect directive/macro explainer.
#[derive(Debug, Clone)]
pub struct Directive {
    pub name: String,
    pub category: String,
    pub syntax: String,
    pub summary: String,
    pub description: String,
}

/// A named integer value: a constant or an enum member.
#[derive(Debug)]
pub struct Value {
    /// `const` or `enum`.
    pub source: String,
    /// Sign-interpreted value.
    pub i64v: i64,
    /// Raw bit pattern at the declared width (what the assembler emits).
    pub bits: u64,
    pub namespace: Option<String>,
}

/// One parameter of a function, with the constants that belong to its type.
#[derive(Debug, Clone)]
pub struct Param {
    pub ordinal: i64,
    pub name: String,
    pub ty: String,
    pub type_kind: String,
    /// For an enum-typed parameter: the `(member, value)` constants it accepts.
    pub related: Vec<(String, u64)>,
}

/// A function: signature plus the related constants per parameter.
#[derive(Debug, Clone)]
pub struct Func {
    pub name: String,
    pub dll: Option<String>,
    pub callconv: Option<String>,
    pub aw_family: Option<String>,
    pub ret: String,
    pub doc_url: Option<String>,
    pub params: Vec<Param>,
}

/// A struct/union field with its byte offset.
#[derive(Debug, Clone)]
pub struct Field {
    pub name: String,
    pub offset: i64,
    pub ty: String,
}

/// A struct/union layout (sizes in bytes).
#[derive(Debug, Clone)]
pub struct Layout {
    pub name: String,
    pub kind: String,
    pub size: i64,
    pub align: i64,
    pub fields: Vec<Field>,
}

/// A COM interface method in vtable order.
#[derive(Debug, Clone)]
pub struct Method {
    pub vtable_index: i64,
    pub name: String,
    /// Parameter type names, by ordinal.
    pub params: Vec<String>,
}

/// A COM interface: IID, base, and its own vtable methods.
#[derive(Debug, Clone)]
pub struct Interface {
    pub name: String,
    pub iid: Option<String>,
    pub base: Option<String>,
    pub methods: Vec<Method>,
}

/// A value under the name it is known by.
#[derive(Debug)]
pub struct NamedValue {
    pub name: String,
    pub value: Value,
}

/// A type of known size.
#[derive(Debug, Clone)]
pub struct SizedType {
    pub name: String,
    pub bits: i64,
}

/// The members of an enum type.
#[derive(Debug, Clone)]
pub struct EnumType {
    pub type_id: i64,
    pub members: Vec<(String, u64)>,
}

/// The tables that a completion can be restricted to.
#[derive(Debug, Clone, Copy, PartialEq, Eq, Structural)]
pub enum NameClass {
    Function,
    Constant,
    Type,
}

/// A searchable name.
#[derive(Debug, Clone)]
pub struct NameRow {
    pub class: NameClass,
    pub name: String,
    pub kind: String,
    pub detail: String,
}

/// The knowledge base. Where a name occurs more than once in a table, the first
/// entry counts.
#[derive(Debug)]
pub struct Kb {
    pub functions: Vec<Func>,
    pub values: Vec<NamedValue>,
    pub layouts: Vec<Layout>,
    pub sizes: Vec<SizedType>,
    pub interfaces: Vec<Interface>,
    pub enums: Vec<EnumType>,
    pub instructions: Vec<Instruction>,
    pub directives: Vec<Directive>,
    pub names: Vec<NameRow>,
}

// ── first entries by name ───────────────────────────────────────────────────

/// The first entry of `v` from `i` on whose name is `name`.
pub open spec fn function_from(v: Seq<Func>, name: Seq<char>, i: int) -> Option<Func>
    decreases v.len() - i,
{
    if i >= v.len() {
        None
    } else if v[i].name@ == name {
        Some(v[i])
    } else {
        function_from(v, name, i + 1)
    }
}

pub open spec fn layout_from(v: Seq<Layout>, name: Seq<char>, i: int) -> Option<Layout>
    decreases v.len() - i,
{
    if i >= v.len() {
        None
    } else if v[i].name@ == name {
        Some(v[i])
    } else {
        layout_from(v, name, i + 1)
    }
}

pub open spec fn interface_from(v: Seq<Interface>, name: Seq<char>, i: int) -> Option<Interface>
    decreases v.len() - i,
{
    if i >= v.len() {
        None
    } else if v[i].name@ == name {
        Some(v[i])
    } else {
        interface_from(v, name, i + 1)
    }
}

pub open spec fn size_from(v: Seq<SizedType>, name: Seq<char>, i: int) -> Option<int>
    decreases v.len() - i,
{
    if i >= v.len() {
        None
    } else if v[i].name@ == name {
        Some(bytes_of_bits(v[i].bits as int))
    } else {
        size_from(v, name, i + 1)
    }
}

/// Bits to bytes, rounding towards zero.
pub open spec fn bytes_of_bits(bits: int) -> int {
    if bits >= 0 {
        bits / 8
    } else {
        -((-bits) / 8)
    }
}

/// The values of `v` known as `name`, in order.
pub open spec fn values_named(v: Seq<NamedValue>, name: Seq<char>) -> Seq<Value>
    decreases v.len(),
{
    if v.len() == 0 {
        Seq::empty()
    } else {
        let before = values_named(v.drop_last(), name);
        if v.last().name@ == name {
            before.push(v.last().value)
        } else {
            before
        }
    }
}

impl Kb {
    pub open spec fn spec_function(&self, name: Seq<char>) -> Option<Func> {
        function_from(self.functions@, name, 0)
    }

    pub open spec fn spec_layout(&self, name: Seq<char>) -> Option<Layout> {
        layout_from(self.layouts@, name, 0)
    }

    pub open spec fn spec_interface(&self, name: Seq<char>) -> Option<Interface> {
        interface_from(self.interfaces@, name, 0)
    }

    pub open spec fn spec_sizeof(&self, name: Seq<char>) -> Option<int> {
        size_from(self.sizes@, name, 0)
    }

    pub open spec fn spec_resolve(&self, name: Seq<char>) -> Seq<Value> {
        values_named(self.values@, name)
    }

    /// A function's signature, with the constants that each enum-typed parameter
    /// accepts.
    pub fn function(&self, name: &[char]) -> (r: Option<&Func>)
        ensures
            (match r {
                Some(f) => Some(*f),
                None => None,
            }) == self.spec_function(name@),
    {
        let mut i: usize = 0;
        while i < self.functions.len()
            invariant
                i <= self.functions@.len(),
                self.spec_function(name@) == function_from(self.functions@, name@, i as int),
            decreases self.functions@.len() - i,
        {
            if is(name, self.functions[i].name.as_str()) {
                return Some(&self.functions[i]);
            }
            i += 1;
        }
        None
    }

    /// Struct/union layout: size, alignment, and each field's byte offset.
    pub fn layout(&self, name: &[char]) -> (r: Option<&Layout>)
        ensures
            (match r {
                Some(f) => Some(*f),
                None => None,
            }) == self.spec_layout(name@),
    {
        let mut i: usize = 0;
        while i < self.layouts.len()
            invariant
                i <= self.layouts@.len(),
                self.spec_layout(name@) == layout_from(self.layouts@, name@, i as int),
            decreases self.layouts@.len() - i,
        {
            if is(name, self.layouts[i].name.as_str()) {
                return Some(&self.layouts[i]);
            }
            i += 1;
        }
        None
    }

    /// COM interface: IID and its own methods; inherited slots come from `base`.
    pub fn interface(&self, name: &[char]) -> (r: Option<&Interface>)
        ensures
            (match r {
                Some(f) => Some(*f),
                None => None,
            }) == self.spec_interface(name@),
    {
        let mut i: usize = 0;
        while i < self.interfaces.len()
            invariant
                i <= self.interfaces@.len(),
                self.spec_interface(name@) == interface_from(self.interfaces@, name@, i as int),
            decreases self.interfaces@.len() - i,
        {
            if is(name, self.interfaces[i].name.as_str()) {
                return Some(&self.interfaces[i]);
            }
            i += 1;
        }
        None
    }

    /// Byte size of any named type, or `None` if unknown.
    pub fn sizeof(&self, name: &[char]) -> (r: Option<i64>)
        ensures
            (match r {
                Some(n) => Some(n as int),
                None => None,
            }) == self.spec_sizeof(name@),
    {
        let mut i: usize = 0;
        while i < self.sizes.len()
            invariant
                i <= self.sizes@.len(),
                self.spec_sizeof(name@) == size_from(self.sizes@, name@, i as int),
            decreases self.sizes@.len() - i,
        {
            if is(name, self.sizes[i].name.as_str()) {
                return Some(bits_to_bytes(self.sizes[i].bits));
            }
            i += 1;
        }
        None
    }

    /// The value(s) of a bare name, constants and enum members alike: every match,
    /// in order; the caller disambiguates on collision.
    pub fn resolve(&self, name: &[char]) -> (r: Vec<&Value>)
        ensures
            r@.map_values(|v: &Value| *v) == self.spec_resolve(name@),
    {
        let mut r: Vec<&Value> = Vec::new();
        let mut i: usize = 0;
        let ghost all = self.values@;
        assert(r@.map_values(|v: &Value| *v) =~= Seq::empty());
        while i < self.values.len()
            invariant
                all == self.values@,
                i <= all.len(),
                r@.map_values(|v: &Value| *v) == values_named(all.take(i as int), name@),
            decreases all.len() - i,
        {
            assert(all.take(i as int + 1).drop_last() =~= all.take(i as int));
            if is(name, self.values[i].name.as_str()) {
                let ghost before = r@.map_values(|v: &Value| *v);
                r.push(&self.values[i].value);
                assert(r@.map_values(|v: &Value| *v) =~= before.push(all[i as int].value));
            }
            i += 1;
        }
        assert(all.take(all.len() as int) =~= all);
        r
    }
}

/// Bits to bytes, rounding towards zero.
pub fn bits_to_bytes(bits: i64) -> (r: i64)
    ensures
        r == bytes_of_bits(bits as int),
{
    if bits >= 0 {
        bits / 8
    } else {
        (-((-(bits as i128)) / 8)) as i64
    }
}

} // verus!
