//! The closed set of value types that a flat shape is described with.
use vstd::prelude::*;

verus! {

#[derive(Debug, PartialEq, Eq)]
pub enum ValueType {
    Null,
    Bool,
    I64,
    U64,
    F64,
    String,
    Array { element_type: Box<ValueType>, elements_nullable: bool },
    Struct { fields: Vec<StructField> },
    Mapping { key_type: Box<ValueType>, value_type: Box<ValueType>, values_nullable: bool },
}

#[derive(Debug, PartialEq, Eq)]
pub struct StructField {
    pub name: String,
    pub human_name: String,
    pub value_type: ValueType,
    pub nullable: bool,
}

pub enum TypeView {
    Null,
    Bool,
    I64,
    U64,
    F64,
    String,
    Array { element_type: Box<TypeView>, elements_nullable: bool },
    Struct { fields: Seq<StructFieldView> },
    Mapping { key_type: Box<TypeView>, value_type: Box<TypeView>, values_nullable: bool },
}

pub struct StructFieldView {
    pub name: Seq<char>,
    pub human_name: Seq<char>,
    pub value_type: TypeView,
    pub nullable: bool,
}

pub open spec fn type_view(t: ValueType) -> TypeView
    decreases t,
{
    match t {
        ValueType::Null => TypeView::Null,
        ValueType::Bool => TypeView::Bool,
        ValueType::I64 => TypeView::I64,
        ValueType::U64 => TypeView::U64,
        ValueType::F64 => TypeView::F64,
        ValueType::String => TypeView::String,
        ValueType::Array { element_type, elements_nullable } => TypeView::Array {
            element_type: Box::new(type_view(*element_type)),
            elements_nullable,
        },
        ValueType::Struct { fields } => TypeView::Struct { fields: struct_fields_view(fields@) },
        ValueType::Mapping { key_type, value_type, values_nullable } => TypeView::Mapping {
            key_type: Box::new(type_view(*key_type)),
            value_type: Box::new(type_view(*value_type)),
            values_nullable,
        },
    }
}

pub open spec fn struct_field_view(f: StructField) -> StructFieldView {
    StructFieldView {
        name: f.name@,
        human_name: f.human_name@,
        value_type: type_view(f.value_type),
        nullable: f.nullable,
    }
}

pub open spec fn struct_fields_view(v: Seq<StructField>) -> Seq<StructFieldView>
    decreases v,
{
    if v.len() == 0 {
        Seq::empty()
    } else {
        struct_fields_view(v.drop_last()).push(
            StructFieldView {
                name: v.last().name@,
                human_name: v.last().human_name@,
                value_type: type_view(v.last().value_type),
                nullable: v.last().nullable,
            },
        )
    }
}

impl View for ValueType {
    type V = TypeView;

    open spec fn view(&self) -> TypeView {
        type_view(*self)
    }
}

impl ValueType {
    /// A type with the same content.
    pub fn copied(&self) -> (r: ValueType)
        ensures
            r@ == self@,
        decreases self,
    {
        match self {
            ValueType::Null => ValueType::Null,
            ValueType::Bool => ValueType::Bool,
            ValueType::I64 => ValueType::I64,
            ValueType::U64 => ValueType::U64,
            ValueType::F64 => ValueType::F64,
            ValueType::String => ValueType::String,
            ValueType::Array { element_type, elements_nullable } => ValueType::Array {
                element_type: Box::new(element_type.copied()),
                elements_nullable: *elements_nullable,
            },
            ValueType::Struct { fields } => {
                let mut out: Vec<StructField> = Vec::new();
                let mut i: usize = 0;
                while i < fields.len()
                    invariant
                        i <= fields@.len(),
                        *self == (ValueType::Struct { fields: *fields }),
                        struct_fields_view(out@) == struct_fields_view(fields@.take(i as int)),
                    decreases fields@.len() - i,
                {
                    assert(decreases_to!(*self => self->Struct_fields));
                    assert(decreases_to!(self->Struct_fields => fields@[i as int].value_type));
                    let ghost before = out@;
                    out.push(
                        StructField {
                            name: fields[i].name.clone(),
                            human_name: fields[i].human_name.clone(),
                            value_type: fields[i].value_type.copied(),
                            nullable: fields[i].nullable,
                        },
                    );
                    assert(out@.drop_last() =~= before);
                    i += 1;
                    assert(fields@.take(i as int).drop_last() =~= fields@.take(i - 1));
                }
                assert(fields@.take(i as int) =~= fields@);
                ValueType::Struct { fields: out }
            },
            ValueType::Mapping { key_type, value_type, values_nullable } => ValueType::Mapping {
                key_type: Box::new(key_type.copied()),
                value_type: Box::new(value_type.copied()),
                values_nullable: *values_nullable,
            },
        }
    }
}

impl Clone for ValueType {
    fn clone(&self) -> (r: ValueType)
        ensures
            r@ == self@,
    {
        self.copied()
    }
}

impl View for StructField {
    type V = StructFieldView;

    open spec fn view(&self) -> StructFieldView {
        struct_field_view(*self)
    }
}

impl Clone for StructField {
    fn clone(&self) -> (r: StructField)
        ensures
            r@ == self@,
    {
        StructField {
            name: self.name.clone(),
            human_name: self.human_name.clone(),
            value_type: self.value_type.copied(),
            nullable: self.nullable,
        }
    }
}

} // verus!
