//! What `facet_core` knows of a type, as far as deserialization goes by it.
use facet_core::{
    Characteristic, Def, EnumRepr, Field, FieldAttribute, FieldFlags, NumericType, PointerDef,
    PointerType, PrimitiveType, Shape, StructType, Type, UserType, Variant,
};
use vstd::prelude::*;

verus! {

/// `facet_core::Shape`, the description of a type.
#[verifier::external_type_specification]
#[verifier::external_body]
pub struct ExShape(Shape);

/// `facet_core::StructType`, the description of the fields of a struct or of a variant.
#[verifier::external_type_specification]
#[verifier::external_body]
pub struct ExStructType(StructType);

/// `facet_core::Field`, the description of a field.
#[verifier::external_type_specification]
#[verifier::external_body]
pub struct ExField(Field);

/// `facet_core::FieldAttribute`, an attribute of a field.
#[verifier::external_type_specification]
#[verifier::external_body]
pub struct ExFieldAttribute(FieldAttribute);

/// `facet_core::Variant`, the description of a variant of an enum.
#[verifier::external_type_specification]
#[verifier::external_body]
pub struct ExVariant(Variant);

/// `facet_core::PointerDef`, the description of a pointer type.
#[verifier::external_type_specification]
#[verifier::external_body]
pub struct ExPointerDef(PointerDef);

/// The kind of a type, as its `ty` tells it.
pub enum TypeInfo {
    /// A struct or a tuple.
    Struct(StructType),
    /// An enum.
    Enum,
    /// Another type of the user's.
    OtherUser,
    /// A reference.
    Reference,
    /// An integer.
    Integer { signed: bool },
    /// A floating-point number.
    Float,
    /// Anything else.
    Other,
}

/// How a type is built, as its `def` tells it.
pub enum DefInfo {
    /// A scalar.
    Scalar,
    /// A map, with the type of its keys.
    Mapping { key: &'static Shape },
    /// A growable list, with the type of its items.
    List { item: &'static Shape },
    /// An array of a fixed length, with the type of its elements.
    Array { len: usize, item: &'static Shape },
    /// A slice.
    Slice,
    /// An `Option`.
    Optional,
    /// A smart pointer.
    Pointer(PointerDef),
    /// Anything else.
    Other,
}

/// The form of a struct or of a variant.
#[derive(Clone, Copy, Debug, PartialEq, Eq, Structural)]
pub enum StructKind {
    /// Without fields.
    Unit,
    /// A struct with unnamed fields.
    TupleStruct,
    /// With named fields.
    Struct,
    /// A tuple.
    Tuple,
}

/// The types that are told apart by name.
#[derive(Clone, Copy, Debug, PartialEq, Eq, Structural)]
pub enum KnownType {
    Usize,
    Isize,
    StrRef,
}

/// The flags of a field.
#[derive(Clone, Copy, Debug, PartialEq, Eq, Structural)]
pub enum FieldFlag {
    /// The field has a default.
    Default,
    /// The fields of the field's type stand in the object of the struct.
    Flatten,
}

/// The kind of the type `shape` (`Shape::ty`).
pub uninterp spec fn type_info(shape: &'static Shape) -> TypeInfo;

/// How values of the type `shape` are built (`Shape::def`).
pub uninterp spec fn def_info(shape: &'static Shape) -> DefInfo;

/// The type that the type `shape` wraps, if any (`Shape::inner`).
pub uninterp spec fn inner_shape(shape: &'static Shape) -> Option<&'static Shape>;

/// Whether the type `shape` has a conversion from another type (`ValueVTable::try_from`).
pub uninterp spec fn converts(shape: &'static Shape) -> bool;

/// The size in bytes of values of the type `shape`, where they have one (`Shape::layout`).
pub uninterp spec fn size_of_shape(shape: &'static Shape) -> Option<usize>;

/// Whether `shape` describes the type `known`.
pub uninterp spec fn describes(shape: &'static Shape, known: KnownType) -> bool;

/// Whether the type `shape` carries the attribute `default`.
pub uninterp spec fn default_attr(shape: &'static Shape) -> bool;

/// Whether the type `shape` carries the attribute `deny_unknown_fields`.
pub uninterp spec fn denies_unknown(shape: &'static Shape) -> bool;

/// Whether values of the type `shape` are held to an invariant (`ValueVTable::invariants`).
pub uninterp spec fn has_invariants(shape: &'static Shape) -> bool;

/// Whether the type `shape` implements `Default`.
pub uninterp spec fn implements_default(shape: &'static Shape) -> bool;

/// The variants of the type `shape`, in the order of their declaration; none unless it is an enum.
pub uninterp spec fn variants_of(shape: &'static Shape) -> Seq<Variant>;

/// Whether the type `shape` is an enum whose values hold no discriminant (`EnumRepr::RustNPO`).
pub uninterp spec fn null_optimized(shape: &'static Shape) -> bool;

/// The discriminant of a variant, where it has one (`Variant::discriminant`).
pub uninterp spec fn discriminant_of(variant: Variant) -> Option<i64>;

/// The form of a struct or of a variant (`StructType::kind`).
pub uninterp spec fn kind_of(st: StructType) -> StructKind;

/// The fields of a struct or of a variant (`StructType::fields`).
pub uninterp spec fn fields_of(st: StructType) -> &'static [Field];

/// The name of a field (`Field::name`).
pub uninterp spec fn field_name(field: Field) -> &'static str;

/// Whether a field carries a flag (`Field::flags`).
pub uninterp spec fn flagged(field: Field, flag: FieldFlag) -> bool;

/// Whether a field has a default function of its own (`FieldVTable::default_fn`).
pub uninterp spec fn has_default_fn(field: Field) -> bool;

/// Whether a field is built by a function of its own (`FieldVTable::deserialize_with`).
pub uninterp spec fn has_custom(field: Field) -> bool;

/// The type of a field.
pub uninterp spec fn shape_of_field(field: Field) -> &'static Shape;

/// The attributes of a field (`Field::attributes`).
pub uninterp spec fn attributes_of(field: Field) -> &'static [FieldAttribute];

/// The type that a `deserialize_with` function takes, where the attribute names one.
pub uninterp spec fn source_of(attribute: FieldAttribute) -> Option<&'static Shape>;

/// The name of a variant (`Variant::name`).
pub uninterp spec fn variant_name(variant: Variant) -> &'static str;

/// The fields of a variant, with their form (`Variant::data`).
pub uninterp spec fn data_of(variant: Variant) -> StructType;

/// Whether pointers of this kind are made from the value that they point to.
pub uninterp spec fn from_pointee(def: PointerDef) -> bool;

/// Reads `Shape::ty`: claims that it is a fixed property of the shape.
#[verifier::external_body]
pub(crate) fn read_type(shape: &'static Shape) -> (r: TypeInfo)
    ensures
        r == type_info(shape),
{
    match shape.ty {
        Type::User(UserType::Struct(st)) => TypeInfo::Struct(st),
        Type::User(UserType::Enum(_)) => TypeInfo::Enum,
        Type::User(_) => TypeInfo::OtherUser,
        Type::Pointer(PointerType::Reference(_)) => TypeInfo::Reference,
        Type::Primitive(PrimitiveType::Numeric(NumericType::Integer { signed })) => TypeInfo::Integer { signed },
        Type::Primitive(PrimitiveType::Numeric(NumericType::Float)) => TypeInfo::Float,
        _ => TypeInfo::Other,
    }
}

/// Reads `Shape::def`: claims that it is a fixed property of the shape.
#[verifier::external_body]
pub(crate) fn read_def(shape: &'static Shape) -> (r: DefInfo)
    ensures
        r == def_info(shape),
{
    match shape.def {
        Def::Scalar => DefInfo::Scalar,
        Def::Map(def) => DefInfo::Mapping { key: def.k() },
        Def::List(def) => DefInfo::List { item: def.t() },
        Def::Array(def) => DefInfo::Array { len: def.n, item: def.t() },
        Def::Slice(_) => DefInfo::Slice,
        Def::Option(_) => DefInfo::Optional,
        Def::Pointer(def) => DefInfo::Pointer(def),
        _ => DefInfo::Other,
    }
}

/// Reads `Shape::inner`: claims that it is a fixed property of the shape.
#[verifier::external_body]
pub(crate) fn read_inner(shape: &'static Shape) -> (r: Option<&'static Shape>)
    ensures
        r == inner_shape(shape),
{
    shape.inner
}

/// Reads `Shape::vtable` for a `try_from`: claims that it is a fixed property of the shape.
#[verifier::external_body]
pub(crate) fn read_converts(shape: &'static Shape) -> (r: bool)
    ensures
        r == converts(shape),
{
    shape.vtable.try_from.is_some()
}

/// Calls `ShapeLayout::sized_layout` on `Shape::layout`, and reads the size: claims that it is a
/// fixed property of the type.
#[verifier::external_body]
pub(crate) fn read_size(shape: &'static Shape) -> (r: Option<usize>)
    ensures
        r == size_of_shape(shape),
{
    match shape.layout.sized_layout() {
        Ok(layout) => Some(layout.size()),
        Err(_) => None,
    }
}

/// Calls `Shape::is_type`: claims that the answer is a fixed property of the shape and the type.
#[verifier::external_body]
pub(crate) fn is_type(shape: &'static Shape, known: KnownType) -> (r: bool)
    ensures
        r == describes(shape, known),
{
    match known {
        KnownType::Usize => shape.is_type::<usize>(),
        KnownType::Isize => shape.is_type::<isize>(),
        KnownType::StrRef => shape.is_type::<&str>(),
    }
}

/// Calls `Shape::has_default_attr`: claims that the answer is a fixed property of the shape.
#[verifier::external_body]
pub(crate) fn has_default_attr(shape: &'static Shape) -> (r: bool)
    ensures
        r == default_attr(shape),
{
    shape.has_default_attr()
}

/// Calls `Shape::has_deny_unknown_fields_attr`: claims that the answer is a fixed property of the
/// type.
#[verifier::external_body]
pub(crate) fn has_deny_unknown_fields_attr(shape: &'static Shape) -> (r: bool)
    ensures
        r == denies_unknown(shape),
{
    shape.has_deny_unknown_fields_attr()
}

/// Calls `Shape::is` with `Characteristic::Default`: claims that the answer is a fixed property of
/// the type.
#[verifier::external_body]
pub(crate) fn is_default(shape: &'static Shape) -> (r: bool)
    ensures
        r == implements_default(shape),
{
    shape.is(Characteristic::Default)
}

/// Reads `StructType::kind`: claims that it is a fixed property.
#[verifier::external_body]
pub(crate) fn read_kind(st: &StructType) -> (r: StructKind)
    ensures
        r == kind_of(*st),
{
    match st.kind {
        facet_core::StructKind::Unit => StructKind::Unit,
        facet_core::StructKind::TupleStruct => StructKind::TupleStruct,
        facet_core::StructKind::Struct => StructKind::Struct,
        facet_core::StructKind::Tuple => StructKind::Tuple,
    }
}

/// Reads `StructType::fields`: claims that it is a fixed property.
#[verifier::external_body]
pub(crate) fn read_fields(st: &StructType) -> (r: &'static [Field])
    ensures
        r == fields_of(*st),
{
    st.fields
}

/// Reads `Field::name`: claims that it is a fixed property.
#[verifier::external_body]
pub(crate) fn read_field_name(field: &Field) -> (r: &'static str)
    ensures
        r == field_name(*field),
{
    field.name
}

/// Calls `FieldFlags::contains` on `Field::flags`: claims that the answer is a fixed property.
#[verifier::external_body]
pub(crate) fn has_flag(field: &Field, flag: FieldFlag) -> (r: bool)
    ensures
        r == flagged(*field, flag),
{
    match flag {
        FieldFlag::Default => field.flags.contains(FieldFlags::DEFAULT),
        FieldFlag::Flatten => field.flags.contains(FieldFlags::FLATTEN),
    }
}

/// Reads `Field::vtable` for a `default_fn`: claims that it is a fixed property.
#[verifier::external_body]
pub(crate) fn read_default_fn(field: &Field) -> (r: bool)
    ensures
        r == has_default_fn(*field),
{
    field.vtable.default_fn.is_some()
}

/// Reads `Field::vtable` for a `deserialize_with`: claims that it is a fixed property.
#[verifier::external_body]
pub(crate) fn read_custom(field: &Field) -> (r: bool)
    ensures
        r == has_custom(*field),
{
    field.vtable.deserialize_with.is_some()
}

/// Calls `Field::shape`: claims that the answer is a fixed property.
#[verifier::external_body]
pub(crate) fn read_field_shape(field: &Field) -> (r: &'static Shape)
    ensures
        r == shape_of_field(*field),
{
    field.shape()
}

/// Reads `Field::attributes`: claims that it is a fixed property.
#[verifier::external_body]
pub(crate) fn read_attributes(field: &Field) -> (r: &'static [FieldAttribute])
    ensures
        r == attributes_of(*field),
{
    field.attributes
}

/// Tells `FieldAttribute::DeserializeFrom` from the other attributes: claims that it is a fixed
/// property.
#[verifier::external_body]
pub(crate) fn read_source(attribute: &FieldAttribute) -> (r: Option<&'static Shape>)
    ensures
        r == source_of(*attribute),
{
    match attribute {
        FieldAttribute::DeserializeFrom(shape) => Some(shape),
        _ => None,
    }
}

/// Reads `Variant::name`: claims that it is a fixed property.
#[verifier::external_body]
pub(crate) fn read_variant_name(variant: &Variant) -> (r: &'static str)
    ensures
        r == variant_name(*variant),
{
    variant.name
}

/// Reads `ValueVTable::invariants`: claims that whether there are any is a fixed property of the
/// type.
#[verifier::external_body]
pub(crate) fn read_invariants(shape: &'static Shape) -> (r: bool)
    ensures
        r == has_invariants(shape),
{
    shape.vtable.invariants.is_some()
}

/// Reads `EnumType::variants`: claims that they are a fixed property of the type.
#[verifier::external_body]
pub(crate) fn read_variants(shape: &'static Shape) -> (r: &'static [Variant])
    ensures
        r@ == variants_of(shape),
{
    match shape.ty {
        Type::User(UserType::Enum(ty)) => ty.variants,
        _ => &[],
    }
}

/// Reads `EnumType::enum_repr`, and tells `EnumRepr::RustNPO` from the others: claims that it is a
/// fixed property of the type.
#[verifier::external_body]
pub(crate) fn is_null_optimized(shape: &'static Shape) -> (r: bool)
    ensures
        r == null_optimized(shape),
{
    match shape.ty {
        Type::User(UserType::Enum(ty)) => matches!(ty.enum_repr, EnumRepr::RustNPO),
        _ => false,
    }
}

/// Reads `Variant::discriminant`: claims that it is a fixed property.
#[verifier::external_body]
pub(crate) fn read_discriminant(variant: &Variant) -> (r: Option<i64>)
    ensures
        r == discriminant_of(*variant),
{
    variant.discriminant
}

/// Whether the enum `shape` has a variant with the discriminant `discriminant`.
pub open spec fn has_discriminant(shape: &'static Shape, discriminant: i64) -> bool {
    exists|i: int|
        0 <= i < variants_of(shape).len() && discriminant_of(#[trigger] variants_of(shape)[i])
            == Some(discriminant)
}

/// Returns whether the enum `shape` has a variant with the discriminant `discriminant`.
pub(crate) fn knows_discriminant(shape: &'static Shape, discriminant: i64) -> (r: bool)
    ensures
        r == has_discriminant(shape, discriminant),
{
    let variants = read_variants(shape);
    let mut index: usize = 0;
    while index < variants.len()
        invariant
            index <= variants@.len(),
            variants@ == variants_of(shape),
            forall|i: int|
                0 <= i < index ==> discriminant_of(#[trigger] variants_of(shape)[i]) != Some(
                    discriminant,
                ),
        decreases variants@.len() - index,
    {
        match read_discriminant(&variants[index]) {
            Some(found) => {
                if found == discriminant {
                    assert(discriminant_of(variants_of(shape)[index as int]) == Some(discriminant));
                    return true;
                }
            },
            None => {},
        }
        index = index + 1;
    }
    false
}

/// Reads `Variant::data`: claims that it is a fixed property.
#[verifier::external_body]
pub(crate) fn read_data(variant: &Variant) -> (r: StructType)
    ensures
        r == data_of(*variant),
{
    variant.data
}

/// Calls `PointerDef::constructible_from_pointee`: claims that the answer is a fixed property.
#[verifier::external_body]
pub(crate) fn read_from_pointee(def: &PointerDef) -> (r: bool)
    ensures
        r == from_pointee(*def),
{
    def.constructible_from_pointee()
}

/// The definition of the smart pointer that `shape` is, where such pointers are made from the
/// value that they point to.
pub open spec fn smart_pointer(shape: &'static Shape) -> Option<PointerDef> {
    match def_info(shape) {
        DefInfo::Pointer(def) => if from_pointee(def) {
            Some(def)
        } else {
            None
        },
        _ => None,
    }
}

/// Returns the definition of the smart pointer that `shape` is, where such pointers are made from
/// the value that they point to.
pub fn constructible_from_pointee(shape: &'static Shape) -> (r: Option<PointerDef>)
    ensures
        r == smart_pointer(shape),
{
    match read_def(shape) {
        DefInfo::Pointer(def) => {
            if read_from_pointee(&def) {
                Some(def)
            } else {
                None
            }
        },
        _ => None,
    }
}

/// Whether one of the attributes of `field` names the type that its `deserialize_with` takes.
pub open spec fn names_source(field: Field) -> bool {
    exists|i: int|
        0 <= i < attributes_of(field)@.len() && (#[trigger] source_of(
            attributes_of(field)@[i],
        )) is Some
}

/// Returns whether one of the attributes of `field` names the type that its `deserialize_with`
/// takes.
pub(crate) fn has_source(field: &Field) -> (r: bool)
    ensures
        r == names_source(*field),
{
    let attributes = read_attributes(field);
    let mut i: usize = 0;
    while i < attributes.len()
        invariant
            attributes == attributes_of(*field),
            i <= attributes@.len(),
            forall|j: int| 0 <= j < i ==> (#[trigger] source_of(attributes@[j])) is None,
        decreases attributes@.len() - i,
    {
        if read_source(&attributes[i]).is_some() {
            return true;
        }
        i = i + 1;
    }
    false
}

} // verus!
