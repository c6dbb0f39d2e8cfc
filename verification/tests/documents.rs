//! Whole documents, as sequences of tokens, read into values of many types.
use facet_core::{
    Def, EnumRepr, EnumType, Facet, Field, FieldAttribute, FieldFlags, FieldVTable, PtrConst,
    PtrMut, PtrUninit, Repr, Shape, ShapeAttribute, StructKind, StructType, Type, UserType, Variant,
};
use facet_deserialize::{
    deserialize, deserialize_wip, resume, Advance, Answer, DeserError, DeserErrorKind, Expectation,
    Float64, FloatWidth, Format, Instruction, NextData, Number, Outcome, PopReason, Progress, Scalar,
    Span, Spanned, StackRunner, ValueReason,
};
use facet_reflect::{HeapValue, Partial, ReflectError};
use std::borrow::Cow;
use std::collections::{BTreeMap, HashMap};
use std::num::NonZero;
use std::path::PathBuf;
use std::rc::Rc;
use std::sync::Arc;

#[derive(Clone, Copy, Debug)]
enum Tok {
    Str(&'static str),
    Owned(&'static str),
    U(u64),
    I(i64),
    F(f64),
    UBig(u128),
    IBig(i128),
    Bool(bool),
    Null,
    List,
    ListEnd,
    Object,
    ObjectEnd,
    Broken,
    FarAway,
}

use Tok::{
    Bool, Broken, FarAway, IBig, List, ListEnd, Null, Object, ObjectEnd, Owned, Str, UBig, F, I, U,
};

const TEXT: &[u8] = b"one byte of the input stands for each token of the document it holds, so here are many";

/// An input of `len` bytes.
fn input(len: usize) -> &'static [u8] {
    &TEXT[..len]
}

#[derive(Default)]
struct Tokens {
    toks: Vec<Tok>,
    pos: usize,
    asked: Vec<Expectation>,
    starts: Vec<usize>,
    skipped: usize,
    input: &'static [u8],
}

impl Tokens {
    fn new(toks: &[Tok]) -> Self {
        Tokens { toks: toks.to_vec(), input: input(toks.len()), ..Tokens::default() }
    }
}

impl Format for Tokens {
    fn source(&self) -> &'static str {
        "tokens"
    }

    fn next<'input, 'facet>(
        &mut self,
        nd: &NextData<'input, 'facet>,
        expectation: Expectation,
    ) -> Result<Spanned<Outcome<'input>>, Spanned<DeserErrorKind>> {
        assert_eq!(nd.input(), self.input);
        assert!(nd.wip.frame_count() >= 1);
        self.asked.push(expectation);
        self.starts.push(nd.start());
        let mut span = Span::new(self.pos, 1);
        let tok = match self.toks.get(self.pos) {
            Some(tok) => *tok,
            None => {
                return Err(Spanned { node: DeserErrorKind::Unimplemented("end of tokens"), span })
            }
        };
        self.pos += 1;
        let node = match tok {
            Str(s) => Outcome::from(Scalar::String(Cow::Borrowed(s))),
            Owned(s) => Outcome::Scalar(Scalar::String(Cow::Owned(s.to_string()))),
            U(v) => Outcome::Scalar(Scalar::U64(v)),
            I(v) => Outcome::Scalar(Scalar::I64(v)),
            F(v) => Outcome::Scalar(Scalar::F64(Float64 { bits: v.to_bits() })),
            UBig(v) => Outcome::Scalar(Scalar::U128(v)),
            IBig(v) => Outcome::Scalar(Scalar::I128(v)),
            Bool(v) => Outcome::Scalar(Scalar::Bool(v)),
            Null => Outcome::Scalar(Scalar::Null),
            List => Outcome::ListStarted,
            ListEnd => Outcome::ListEnded,
            Object => Outcome::ObjectStarted,
            ObjectEnd => Outcome::ObjectEnded,
            Broken => {
                return Err(Spanned { node: DeserErrorKind::Unimplemented("broken token"), span })
            }
            FarAway => {
                span = Span::new(usize::MAX, 1);
                Outcome::ObjectStarted
            }
        };
        Ok(Spanned { node, span })
    }

    fn skip<'input, 'facet>(
        &mut self,
        nd: &NextData<'input, 'facet>,
    ) -> Result<Span, Spanned<DeserErrorKind>> {
        assert_eq!(nd.start(), self.pos);
        let start = self.pos;
        let mut open = 0;
        loop {
            match self.toks.get(self.pos) {
                Some(List) | Some(Object) => open += 1,
                Some(ListEnd) | Some(ObjectEnd) => open -= 1,
                Some(Broken) | None => {
                    return Err(Spanned {
                        node: DeserErrorKind::Unimplemented("nothing to skip"),
                        span: Span::new(self.pos, 1),
                    })
                }
                _ => {}
            }
            self.pos += 1;
            if open == 0 {
                break;
            }
        }
        self.skipped += 1;
        Ok(Span::new(start, self.pos - start))
    }
}

fn double(n: Number) -> f64 {
    match n {
        Number::U64(v) => v as f64,
        Number::I64(v) => v as f64,
        Number::F64(v) => f64::from_bits(v.bits),
        Number::U128(v) => v as f64,
        Number::I128(v) => v as f64,
    }
}

fn single(n: Number) -> f32 {
    match n {
        Number::U64(v) => v as f32,
        Number::I64(v) => v as f32,
        Number::F64(v) => f64::from_bits(v.bits) as f32,
        Number::U128(v) => v as f32,
        Number::I128(v) => v as f32,
    }
}

fn drive(
    shape: &'static Shape,
    format: &mut Tokens,
) -> Result<HeapValue<'static>, DeserError<'static>> {
    let mut progress = deserialize(format.input, shape, format)?;
    loop {
        match progress {
            Progress::Done(value) => return Ok(value),
            Progress::Float(mut pending) => {
                let value = pending.request.value;
                let stored = match pending.request.width {
                    FloatWidth::Single => pending.data.wip.set(single(value)).map(|_| ()),
                    FloatWidth::Double => pending.data.wip.set(double(value)).map(|_| ()),
                };
                progress = resume(pending, stored, format)?;
            }
        }
    }
}

fn read_as<T: Facet<'static>>(shape: &'static Shape, toks: &[Tok]) -> T {
    match drive(shape, &mut Tokens::new(toks)) {
        Ok(value) => value.materialize::<T>().unwrap(),
        Err(e) => panic!("{:?} at {:?}", e.kind, e.span),
    }
}

fn read<T: Facet<'static>>(toks: &[Tok]) -> T {
    read_as(T::SHAPE, toks)
}

fn fail_as(shape: &'static Shape, toks: &[Tok]) -> DeserError<'static> {
    match drive(shape, &mut Tokens::new(toks)) {
        Ok(_) => panic!("no error"),
        Err(e) => e,
    }
}

fn fail<T: Facet<'static>>(toks: &[Tok]) -> DeserError<'static> {
    fail_as(T::SHAPE, toks)
}

fn fields_of(shape: &Shape) -> &'static [Field] {
    match shape.ty {
        Type::User(UserType::Struct(st)) => st.fields,
        _ => panic!("not a struct"),
    }
}

fn leak(shape: Shape) -> &'static Shape {
    Box::leak(Box::new(shape))
}

fn leak_fields(fields: Vec<Field>) -> &'static [Field] {
    Box::leak(fields.into_boxed_slice())
}

/// The type of the tuple `T`, taken for a struct with the given fields.
fn struct_of<T: Facet<'static>>(
    names: &[(&'static str, FieldFlags)],
    attributes: &'static [ShapeAttribute],
) -> Shape {
    let mut shape = *T::SHAPE;
    let mut fields = fields_of(&shape).to_vec();
    assert_eq!(fields.len(), names.len());
    for (field, (name, flags)) in fields.iter_mut().zip(names) {
        field.name = name;
        field.flags = *flags;
    }
    shape.ty = Type::User(UserType::Struct(StructType {
        repr: Repr::default(),
        kind: StructKind::Struct,
        fields: leak_fields(fields),
    }));
    shape.attributes = attributes;
    shape
}

const PLAIN: FieldFlags = FieldFlags::EMPTY;
const DEFAULT: FieldFlags = FieldFlags::DEFAULT;
const FLATTEN: FieldFlags = FieldFlags::FLATTEN;

fn point() -> &'static Shape {
    leak(struct_of::<(u32, String)>(&[("x", PLAIN), ("name", PLAIN)], &[]))
}

// ---------------------------------------------------------------------------------------------
// Scalars

#[test]
fn it_works() {}

#[test]
fn integers_of_every_type() {
    assert_eq!(read::<i8>(&[I(-128)]), -128);
    assert_eq!(read::<i16>(&[I(-32768)]), -32768);
    assert_eq!(read::<i32>(&[U(2147483647)]), 2147483647);
    assert_eq!(read::<i64>(&[I(i64::MIN)]), i64::MIN);
    assert_eq!(read::<i128>(&[IBig(i128::MIN)]), i128::MIN);
    assert_eq!(read::<isize>(&[I(-5)]), -5);
    assert_eq!(read::<u8>(&[U(255)]), 255);
    assert_eq!(read::<u16>(&[U(65535)]), 65535);
    assert_eq!(read::<u32>(&[I(7)]), 7);
    assert_eq!(read::<u64>(&[U(u64::MAX)]), u64::MAX);
    assert_eq!(read::<u128>(&[UBig(u128::MAX)]), u128::MAX);
    assert_eq!(read::<usize>(&[U(9)]), 9);
}

fn conversion(e: &DeserError<'_>) -> &'static str {
    match e.kind {
        DeserErrorKind::NumericConversion { from, to } => {
            assert_eq!(from, "numeric");
            to
        }
        _ => panic!("{:?}", e.kind),
    }
}

#[test]
fn integers_out_of_range() {
    assert_eq!(conversion(&fail::<i8>(&[U(128)])), "i8");
    assert_eq!(conversion(&fail::<i16>(&[I(-32769)])), "i16");
    assert_eq!(conversion(&fail::<i32>(&[U(2147483648)])), "i32");
    assert_eq!(conversion(&fail::<i64>(&[U(1 << 63)])), "i64");
    assert_eq!(conversion(&fail::<i128>(&[F(0.5)])), "i128");
    assert_eq!(conversion(&fail::<isize>(&[UBig(1 << 64)])), "isize");
    assert_eq!(conversion(&fail::<u8>(&[U(256)])), "u8");
    assert_eq!(conversion(&fail::<u16>(&[I(-1)])), "u16");
    assert_eq!(conversion(&fail::<u32>(&[U(1 << 32)])), "u32");
    assert_eq!(conversion(&fail::<u64>(&[IBig(-1)])), "u64");
    assert_eq!(conversion(&fail::<u128>(&[I(-1)])), "u128");
    assert_eq!(conversion(&fail::<usize>(&[I(-1)])), "usize");
}

#[test]
fn doubles_read_for_integers() {
    assert_eq!(read::<u8>(&[F(200.0)]), 200);
    assert_eq!(read::<i32>(&[F(-3.0)]), -3);
    assert_eq!(read::<i64>(&[F(9223372036854775808.0)]), i64::MAX);
    assert_eq!(read::<u64>(&[F(9223372036854775808.0)]), 1 << 63);
    assert_eq!(read::<u64>(&[F(1e19)]), 10_000_000_000_000_000_000);
    assert_eq!(read::<i128>(&[F(-1e19)]), -10_000_000_000_000_000_000);
    assert_eq!(conversion(&fail::<i64>(&[F(1e19)])), "i64");
    assert_eq!(conversion(&fail::<i32>(&[F(1.5)])), "i32");
    assert_eq!(conversion(&fail::<u64>(&[F(f64::NAN)])), "u64");
}

#[test]
fn floating_point_targets() {
    assert_eq!(read::<f64>(&[F(1.25)]), 1.25);
    assert_eq!(read::<f32>(&[F(0.1)]), 0.1f64 as f32);
    assert_eq!(read::<f64>(&[U(3)]), 3.0);
    assert_eq!(read::<f64>(&[I(-4)]), -4.0);
    assert_eq!(read::<f32>(&[UBig(1 << 100)]), (1u128 << 100) as f32);
    assert_eq!(read::<f64>(&[IBig(-1)]), -1.0);
    assert!(read::<f64>(&[F(f64::NAN)]).is_nan());
    let shape = leak(struct_of::<(f64, u32, f32)>(
        &[("a", PLAIN), ("b", PLAIN), ("c", PLAIN)],
        &[],
    ));
    let doc = [Object, Str("c"), F(2.5), Str("a"), U(1), Str("b"), U(2), ObjectEnd];
    assert_eq!(read_as::<(f64, u32, f32)>(shape, &doc), (1.0, 2, 2.5));
}

#[test]
fn floating_point_store_that_fails() {
    let mut format = Tokens::new(&[F(1.0)]);
    let pending = match deserialize(input(1), f64::SHAPE, &mut format) {
        Ok(Progress::Float(pending)) => pending,
        _ => panic!("no number"),
    };
    assert_eq!(pending.request.width, FloatWidth::Double);
    assert!(matches!(pending.request.value, Number::F64(v) if v.bits == 1.0f64.to_bits()));
    let stored = Err(ReflectError::Unknown);
    match resume(pending, stored, &mut format) {
        Err(e) => {
            assert!(matches!(e.kind, DeserErrorKind::ReflectError(ReflectError::Unknown)));
            assert_eq!(e.input, input(1));
            assert_eq!(e.span, Span::new(0, 1));
        }
        Ok(_) => panic!("no error"),
    }
}

#[test]
fn bools_and_strings() {
    assert!(read::<bool>(&[Bool(true)]));
    assert!(!read::<bool>(&[Bool(false)]));
    assert_eq!(read::<String>(&[Str("hello")]), "hello");
    assert_eq!(read::<String>(&[Owned("owned")]), "owned");
    assert_eq!(read::<&'static str>(&[Str("borrowed")]), "borrowed");
    assert!(matches!(
        fail::<&'static str>(&[Owned("owned")]).kind,
        DeserErrorKind::ReflectError(ReflectError::WrongShape { .. })
    ));
    assert!(matches!(
        fail::<u32>(&[Bool(true)]).kind,
        DeserErrorKind::ReflectError(ReflectError::WrongShape { .. })
    ));
}

#[test]
fn strings_that_are_parsed() {
    assert_eq!(read::<u32>(&[Str("42")]), 42);
    assert_eq!(read::<char>(&[Str("x")]), 'x');
    match fail::<u32>(&[Str("forty-two")]).kind {
        DeserErrorKind::ReflectError(ReflectError::OperationFailed { shape, operation }) => {
            assert_eq!(operation, "Failed to parse string value");
            assert_eq!(shape, u32::SHAPE);
        }
        other => panic!("{:?}", other),
    }
}

#[test]
fn strings_for_a_scalar_that_cannot_parse() {
    let mut shape = *String::SHAPE;
    shape.vtable.parse = None;
    assert_eq!(read_as::<String>(leak(shape), &[Str("as it is")]), "as it is");
}

#[test]
fn strings_for_what_is_no_scalar() {
    assert!(matches!(
        fail::<Vec<u32>>(&[Str("text")]).kind,
        DeserErrorKind::ReflectError(ReflectError::WrongShape { .. })
    ));
}

#[test]
fn numbers_for_what_is_no_number() {
    match fail::<String>(&[U(1)]).kind {
        DeserErrorKind::UnsupportedType { got, wanted } => {
            assert_eq!(got, String::SHAPE);
            assert_eq!(wanted, "numeric type");
        }
        other => panic!("{:?}", other),
    }
    let mut shape = *u32::SHAPE;
    shape.def = Def::Undefined;
    match fail_as(leak(shape), &[U(1)]).kind {
        DeserErrorKind::UnsupportedType { wanted, .. } => assert_eq!(wanted, "scalar type"),
        other => panic!("{:?}", other),
    }
}

#[test]
fn nulls_are_defaults() {
    assert_eq!(read::<u32>(&[Null]), 0);
    assert_eq!(read::<String>(&[Null]), "");
    assert_eq!(read::<Option<u32>>(&[Null]), None);
    assert_eq!(read::<Vec<u32>>(&[Null]), Vec::<u32>::new());
    assert_eq!(read_as::<(u32, String)>(point(), &[Null]), (0, String::new()));
    match fail::<&'static str>(&[Null]).kind {
        DeserErrorKind::ReflectError(ReflectError::OperationFailed { operation, .. }) => {
            assert_eq!(operation, "type does not implement Default")
        }
        other => panic!("{:?}", other),
    }
}

// ---------------------------------------------------------------------------------------------
// What stands round a value

#[test]
fn options_pointers_and_wrappers() {
    assert_eq!(read::<Option<u32>>(&[U(5)]), Some(5));
    assert_eq!(read::<Option<Option<u32>>>(&[U(5)]), Some(Some(5)));
    assert_eq!(read::<Box<u32>>(&[U(6)]), Box::new(6));
    assert_eq!(read::<Arc<String>>(&[Str("shared")]), Arc::new("shared".to_string()));
    assert_eq!(read::<Rc<u8>>(&[U(1)]), Rc::new(1));
    assert_eq!(read::<Arc<str>>(&[Str("text")]), Arc::<str>::from("text"));
    assert_eq!(read::<Option<Box<Vec<u8>>>>(&[List, U(1), U(2), ListEnd]), Some(Box::new(vec![1, 2])));
    assert_eq!(read::<PathBuf>(&[Str("a/b")]), PathBuf::from("a/b"));
}

#[test]
fn wrappers() {
    assert_eq!(read::<NonZero<u32>>(&[U(5)]).get(), 5);
    match fail::<NonZero<u32>>(&[U(0)]).kind {
        DeserErrorKind::ReflectError(ReflectError::TryFromError { src_shape, dst_shape, .. }) => {
            assert_eq!(src_shape, u32::SHAPE);
            assert_eq!(dst_shape, <NonZero<u32>>::SHAPE);
        }
        other => panic!("{:?}", other),
    }
    let mut newtype = *<(u32,)>::SHAPE;
    newtype.inner = Some(u32::SHAPE);
    assert_eq!(read_as::<(u32,)>(leak(newtype), &[U(8)]), (8,));
    assert_eq!(read::<Option<NonZero<u8>>>(&[U(1)]), NonZero::new(1));
}

#[test]
fn wrapper_set_more_than_once() {
    let shape = leak(struct_of::<(NonZero<u32>, u32)>(&[("a", PLAIN), ("b", PLAIN)], &[]));
    let e = fail_as(shape, &[Object, Str("a"), U(1), Str("a"), U(2)]);
    assert!(matches!(e.kind, DeserErrorKind::Unimplemented("wrapper set more than once")));
}

#[test]
fn slices_behind_pointers() {
    let list = read::<Arc<[u32]>>(&[List, U(1), U(2), U(3), ListEnd]);
    assert_eq!(&list[..], &[1, 2, 3]);
    let empty = read::<Arc<[u32]>>(&[List, ListEnd]);
    assert!(empty.is_empty());
}

#[test]
fn option_set_more_than_once() {
    let shape = leak(struct_of::<(Option<u32>, u32)>(&[("a", PLAIN), ("b", PLAIN)], &[]));
    let e = fail_as(shape, &[Object, Str("a"), U(1), Str("a"), U(2)]);
    assert!(matches!(e.kind, DeserErrorKind::Unimplemented("option set more than once")));
    assert_eq!(e.span, Span::new(4, 1));
}

#[test]
fn options_and_wrappers_that_were_prepared() {
    // An option that was given its value inside keeps it
    let mut wip = fresh(<Option<u32>>::SHAPE);
    wip.begin_some().unwrap().set(1u32).unwrap().end().unwrap();
    let mut runner = runner();
    let read = spanned(Outcome::Scalar(Scalar::U64(2)));
    assert!(matches!(runner.value(&mut wip, read), Ok(None)));
    wip.end().unwrap();
    let value = wip.build().unwrap().materialize::<Option<u32>>().unwrap();
    assert_eq!(value, Some(1));
    // One that was set as a whole does not take another
    let mut wip = fresh(<Option<u32>>::SHAPE);
    wip.set(Some(1u32)).unwrap();
    let read = spanned(Outcome::Scalar(Scalar::U64(2)));
    assert!(matches!(
        runner.value(&mut wip, read).err().unwrap().kind,
        DeserErrorKind::Unimplemented("option set more than once")
    ));
}

#[test]
fn plain_field_set_more_than_once() {
    let doc = [Object, Str("x"), U(1), Str("name"), Str("n"), Str("x"), U(2), ObjectEnd];
    assert_eq!(read_as::<(u32, String)>(point(), &doc), (2, "n".to_string()));
}

fn refuse<'mem>(_: PtrConst<'mem>, _: PtrUninit<'mem>) -> Result<PtrMut<'mem>, String> {
    Err("refused".to_string())
}

fn custom_field(attributes: &'static [FieldAttribute]) -> &'static Shape {
    let mut shape = struct_of::<(u32,)>(&[("a", PLAIN)], &[]);
    let mut field = fields_of(&shape)[0];
    field.attributes = attributes;
    let mut vtable: FieldVTable = *field.vtable;
    vtable.deserialize_with = Some(refuse);
    field.vtable = Box::leak(Box::new(vtable));
    shape.ty = Type::User(UserType::Struct(StructType {
        repr: Repr::default(),
        kind: StructKind::Struct,
        fields: leak_fields(vec![field]),
    }));
    leak(shape)
}

#[test]
fn custom_deserialization_takes_the_other_type() {
    let attributes: &'static [FieldAttribute] =
        Box::leak(Box::new([FieldAttribute::DeserializeFrom(String::SHAPE)]));
    let shape = custom_field(attributes);
    match fail_as(shape, &[Object, Str("a"), Str("text"), ObjectEnd]).kind {
        DeserErrorKind::ReflectError(ReflectError::CustomDeserializationError {
            message,
            src_shape,
            dst_shape,
        }) => {
            assert_eq!(message, "refused");
            assert_eq!(src_shape, String::SHAPE);
            assert_eq!(dst_shape, u32::SHAPE);
        }
        other => panic!("{:?}", other),
    }
}

#[test]
fn custom_deserialization_without_a_type() {
    let e = fail_as(custom_field(&[]), &[Object, Str("a"), U(1)]);
    assert!(matches!(
        e.kind,
        DeserErrorKind::Unimplemented("custom deserialization from an unnamed type")
    ));
}

// ---------------------------------------------------------------------------------------------
// Lists

#[test]
fn lists() {
    assert_eq!(read::<Vec<u32>>(&[List, ListEnd]), Vec::<u32>::new());
    assert_eq!(read::<Vec<u32>>(&[List, U(1), U(2), ListEnd]), vec![1, 2]);
    assert_eq!(
        read::<Vec<Vec<String>>>(&[
            List,
            List,
            Str("a"),
            Str("b"),
            ListEnd,
            List,
            ListEnd,
            List,
            Str("c"),
            ListEnd,
            ListEnd
        ]),
        vec![vec!["a".to_string(), "b".to_string()], vec![], vec!["c".to_string()]]
    );
    assert_eq!(read::<Vec<Option<u8>>>(&[List, U(1), Null, ListEnd]), vec![Some(1), None]);
}

#[test]
fn arrays() {
    assert_eq!(read::<[u32; 3]>(&[List, U(1), U(2), U(3), ListEnd]), [1, 2, 3]);
    assert_eq!(
        read::<[[u8; 2]; 2]>(&[
            List,
            List,
            U(1),
            U(2),
            ListEnd,
            List,
            U(3),
            U(4),
            ListEnd,
            ListEnd
        ]),
        [[1, 2], [3, 4]]
    );
}

fn overflow(e: &DeserError<'_>) -> (&'static Shape, usize) {
    match e.kind {
        DeserErrorKind::ArrayOverflow { shape, max_len } => (shape, max_len),
        _ => panic!("{:?}", e.kind),
    }
}

#[test]
fn too_many_items() {
    let e = fail::<[u32; 2]>(&[List, U(1), U(2), U(3), ListEnd]);
    assert_eq!(overflow(&e), (<[u32; 2]>::SHAPE, 2));
    assert_eq!(e.span, Span::new(3, 1));
    let e = fail::<(u32, bool)>(&[List, U(1), Bool(true), U(3), ListEnd]);
    assert_eq!(overflow(&e), (<(u32, bool)>::SHAPE, 2));
    let e = fail::<[[u8; 1]; 2]>(&[List, List, U(1), ListEnd, List, U(2), U(3)]);
    assert_eq!(overflow(&e), (<[u8; 1]>::SHAPE, 1));
}

#[test]
fn tuples() {
    assert_eq!(
        read::<(u32, String, bool)>(&[List, U(1), Str("two"), Bool(true), ListEnd]),
        (1, "two".to_string(), true)
    );
    assert_eq!(read::<((u8, u8), u8)>(&[List, List, U(1), U(2), ListEnd, U(3), ListEnd]), ((1, 2), 3));
}

#[test]
fn tuple_as_an_object() {
    let doc = [Object, Str("1"), U(2), Str("0"), U(1), ObjectEnd];
    assert_eq!(read::<(u8, u8)>(&doc), (1, 2));
}

/// `()`, taken for a tuple without fields.
fn empty_tuple() -> &'static Shape {
    let mut unit = *<()>::SHAPE;
    unit.ty = Type::User(UserType::Struct(StructType {
        repr: Repr::default(),
        kind: StructKind::Tuple,
        fields: &[],
    }));
    leak(unit)
}

#[test]
fn empty_tuples() {
    read_as::<()>(empty_tuple(), &[List, ListEnd]);
    let e = fail_as(empty_tuple(), &[List, U(1)]);
    assert_eq!(overflow(&e), (empty_tuple(), 0));
}

#[test]
fn empty_tuples_in_tuples() {
    let mut shape = *<((), u8)>::SHAPE;
    let mut fields = fields_of(&shape).to_vec();
    fields[0].shape = empty_tuple;
    shape.ty = Type::User(UserType::Struct(StructType {
        repr: Repr::default(),
        kind: StructKind::Tuple,
        fields: leak_fields(fields),
    }));
    let doc = [List, List, ListEnd, U(5), ListEnd];
    assert_eq!(read_as::<((), u8)>(leak(shape), &doc), ((), 5));
}

#[test]
fn lists_for_what_is_no_list() {
    let unsupported = |shape: &'static Shape, wanted: &str| match fail_as(shape, &[List]).kind {
        DeserErrorKind::UnsupportedType { got, wanted: text } => {
            assert_eq!(got, shape);
            assert_eq!(text, wanted);
        }
        other => panic!("{:?}", other),
    };
    unsupported(u32::SHAPE, "array, list, tuple, or slice");
    unsupported(point(), "array, list, tuple, or slice");
    unsupported(shade(), "enum with variant selected");
}

// ---------------------------------------------------------------------------------------------
// Objects

#[test]
fn structs() {
    let doc = [Object, Str("name"), Str("p"), Str("x"), U(4), ObjectEnd];
    assert_eq!(read_as::<(u32, String)>(point(), &doc), (4, "p".to_string()));
}

#[test]
fn the_format_is_asked_for_what_is_due() {
    let shape = leak(struct_of::<(u32, Vec<u8>)>(&[("x", PLAIN), ("ys", PLAIN)], &[]));
    let mut format = Tokens::new(&[
        Object,
        Str("x"),
        U(1),
        Str("ys"),
        List,
        U(1),
        ListEnd,
        Str("other"),
        Object,
        Str("deep"),
        List,
        ListEnd,
        ObjectEnd,
        ObjectEnd,
    ]);
    assert!(drive(shape, &mut format).is_ok());
    assert_eq!(
        format.asked,
        vec![
            Expectation::Value,
            Expectation::ObjectKeyOrObjectClose,
            Expectation::ObjectVal,
            Expectation::ObjectKeyOrObjectClose,
            Expectation::ObjectVal,
            Expectation::ListItemOrListClose,
            Expectation::ListItemOrListClose,
            Expectation::ObjectKeyOrObjectClose,
            Expectation::ObjectKeyOrObjectClose,
        ]
    );
    assert_eq!(format.starts, vec![0, 1, 2, 3, 4, 5, 6, 7, 13]);
    assert_eq!(format.skipped, 1);
}

#[test]
fn unknown_fields() {
    let doc = [Object, Str("z"), List, U(1), ListEnd, Str("x"), U(1), Str("name"), Str(""), ObjectEnd];
    assert_eq!(read_as::<(u32, String)>(point(), &doc), (1, String::new()));
    let strict = leak(struct_of::<(u32, String)>(
        &[("x", PLAIN), ("name", PLAIN)],
        &[ShapeAttribute::DenyUnknownFields],
    ));
    let e = fail_as(strict, &doc);
    match e.kind {
        DeserErrorKind::UnknownField { field_name, shape } => {
            assert_eq!(field_name, "z");
            assert_eq!(shape, strict);
        }
        other => panic!("{:?}", other),
    }
    assert_eq!(e.span, Span::new(1, 1));
}

#[test]
fn missing_fields() {
    match fail_as(point(), &[Object, Str("x"), U(1), ObjectEnd]).kind {
        DeserErrorKind::ReflectError(ReflectError::UninitializedField { field_name, .. }) => {
            assert_eq!(field_name, "name")
        }
        other => panic!("{:?}", other),
    }
    match fail_as(point(), &[Object, ObjectEnd]).kind {
        DeserErrorKind::ReflectError(ReflectError::UninitializedField { field_name, .. }) => {
            assert_eq!(field_name, "x")
        }
        other => panic!("{:?}", other),
    }
}

#[test]
fn fields_with_defaults() {
    let shape = leak(struct_of::<(u32, String, u8)>(
        &[("x", DEFAULT), ("name", PLAIN), ("z", DEFAULT)],
        &[],
    ));
    let doc = [Object, Str("name"), Str("n"), Str("z"), U(3), ObjectEnd];
    assert_eq!(read_as::<(u32, String, u8)>(shape, &doc), (0, "n".to_string(), 3));
    let shape = leak(struct_of::<(u32, String)>(&[("x", DEFAULT), ("name", PLAIN)], &[]));
    match fail_as(shape, &[Object, ObjectEnd]).kind {
        DeserErrorKind::ReflectError(ReflectError::UninitializedField { field_name, .. }) => {
            assert_eq!(field_name, "name")
        }
        other => panic!("{:?}", other),
    }
    let shape = leak(struct_of::<(u32, &'static str)>(&[("x", PLAIN), ("s", DEFAULT)], &[]));
    match fail_as(shape, &[Object, Str("x"), U(1), ObjectEnd]).kind {
        DeserErrorKind::ReflectError(ReflectError::DefaultAttrButNoDefaultImpl { shape }) => {
            assert_eq!(shape, <&'static str>::SHAPE)
        }
        other => panic!("{:?}", other),
    }
}

#[test]
fn structs_with_a_default() {
    let shape = leak(struct_of::<(u32, String, u8)>(
        &[("x", PLAIN), ("name", PLAIN), ("z", PLAIN)],
        &[ShapeAttribute::Default],
    ));
    let doc = [Object, Str("z"), U(3), ObjectEnd];
    assert_eq!(read_as::<(u32, String, u8)>(shape, &doc), (0, String::new(), 3));
    assert_eq!(read_as::<(u32, String, u8)>(shape, &[Object, ObjectEnd]), (0, String::new(), 0));
    let without = leak(struct_of::<(u32, &'static str)>(
        &[("x", PLAIN), ("s", PLAIN)],
        &[ShapeAttribute::Default],
    ));
    match fail_as(without, &[Object, Str("x"), U(1), ObjectEnd]).kind {
        DeserErrorKind::ReflectError(ReflectError::OperationFailed { operation, .. }) => {
            assert_eq!(operation, "type does not implement Default")
        }
        other => panic!("{:?}", other),
    }
}

fn never(_: PtrConst<'_>) -> bool {
    false
}

/// The type `shape`, with an invariant that no value meets.
fn impossible(shape: &Shape) -> &'static Shape {
    let mut shape = *shape;
    shape.vtable.invariants = Some(never);
    leak(shape)
}

#[test]
fn types_with_invariants() {
    let refused = |e: DeserError<'static>| {
        matches!(e.kind, DeserErrorKind::ReflectError(ReflectError::InvariantViolation { .. }))
    };
    assert!(refused(fail_as(impossible(u32::SHAPE), &[U(1)])));
    // A default value that is refused provides no field
    let names = [("x", PLAIN), ("y", PLAIN)];
    let shape = struct_of::<(u32, u8)>(&names, &[ShapeAttribute::Default]);
    let doc = [Object, Str("x"), U(7), ObjectEnd];
    assert!(refused(fail_as(impossible(&shape), &doc)));
    assert_eq!(read_as::<(u32, u8)>(leak(shape), &doc), (7, 0));
}

fn point_shape() -> &'static Shape {
    point()
}

fn shade_shape() -> &'static Shape {
    shade()
}

/// A struct of a number and a flattened point.
fn flattened(id: &'static str) -> &'static Shape {
    let mut shape = struct_of::<(u8, (u32, String))>(&[(id, PLAIN), ("at", FLATTEN)], &[]);
    let mut fields = fields_of(&shape).to_vec();
    fields[1].shape = point_shape;
    shape.ty = Type::User(UserType::Struct(StructType {
        repr: Repr::default(),
        kind: StructKind::Struct,
        fields: leak_fields(fields),
    }));
    leak(shape)
}

#[test]
fn flattened_structs() {
    let doc = [Object, Str("id"), U(9), Str("x"), U(1), ObjectEnd];
    assert!(matches!(
        fail_as(flattened("id"), &doc).kind,
        DeserErrorKind::ReflectError(ReflectError::UninitializedField { field_name: "name", .. })
    ));
    let doc = [Object, Str("id"), U(9), Str("x"), U(1), Str("name"), Str("n"), ObjectEnd];
    assert_eq!(read_as::<(u8, (u32, String))>(flattened("id"), &doc), (9, (1, "n".to_string())));
}

#[test]
fn fields_of_the_struct_come_before_flattened_ones() {
    let doc = [Object, Str("x"), U(300)];
    assert_eq!(conversion(&fail_as(flattened("x"), &doc)), "u8");
    let doc = [Object, Str("x"), U(3), Str("name"), Str("n")];
    let e = fail_as(flattened("x"), &doc);
    assert!(matches!(e.kind, DeserErrorKind::Unimplemented("end of tokens")));
}

#[test]
fn unknown_key_beside_a_flattened_struct() {
    // The flattened struct is entered to look for the key, and cannot be left unfinished
    assert!(matches!(
        fail_as(flattened("id"), &[Object, Str("?"), U(1)]).kind,
        DeserErrorKind::ReflectError(ReflectError::UninitializedValue { .. })
            | DeserErrorKind::ReflectError(ReflectError::UninitializedField { .. })
    ));
}

#[test]
fn flattened_enums() {
    let mut shape = struct_of::<(u8, (u64, u64))>(&[("id", PLAIN), ("shade", FLATTEN)], &[]);
    let mut fields = fields_of(&shape).to_vec();
    fields[1].shape = shade_shape;
    shape.ty = Type::User(UserType::Struct(StructType {
        repr: Repr::default(),
        kind: StructKind::Struct,
        fields: leak_fields(fields),
    }));
    let shape = leak(shape);
    let doc = [Object, Str("id"), U(9), Str("Level"), Object, Str("of"), U(5), ObjectEnd, ObjectEnd];
    let (id, payload) = read_as::<(u8, (u64, u64))>(shape, &doc);
    assert_eq!(id, 9);
    assert_eq!(parts(payload), (1, 5));
}

#[test]
fn keys_that_are_no_strings() {
    match fail_as(point(), &[Object, U(1)]).kind {
        DeserErrorKind::UnexpectedOutcome { got, wanted } => {
            assert_eq!(got, Outcome::Scalar(Scalar::U64(1)));
            assert_eq!(wanted, "scalar or object close");
        }
        other => panic!("{:?}", other),
    }
}

#[test]
fn maps() {
    let doc = [Object, Str("a"), U(1), Owned("b"), U(2), Str("a"), U(3), ObjectEnd];
    let map = read::<HashMap<String, u32>>(&doc);
    assert_eq!(map.len(), 2);
    assert_eq!(map["a"], 3);
    assert_eq!(map["b"], 2);
    assert!(read::<HashMap<String, u32>>(&[Object, ObjectEnd]).is_empty());
    let doc = [Object, Str("a"), List, U(1), ListEnd, ObjectEnd];
    let map = read::<BTreeMap<String, Vec<u8>>>(&doc);
    assert_eq!(map["a"], vec![1]);
}

#[test]
fn map_keys_of_another_type() {
    assert!(matches!(
        fail::<HashMap<u32, u32>>(&[Object, Str("1"), U(1)]).kind,
        DeserErrorKind::ReflectError(ReflectError::WrongShape { .. })
    ));
}

fn wrapped_key() -> &'static Shape {
    let mut shape = *<(String,)>::SHAPE;
    shape.inner = Some(String::SHAPE);
    leak(shape)
}

#[test]
fn map_keys_that_are_wrapped() {
    let mut shape = *<HashMap<(String,), u32>>::SHAPE;
    match &mut shape.def {
        Def::Map(def) => def.k = wrapped_key(),
        _ => panic!("not a map"),
    }
    let doc = [Object, Str("a"), U(1), ObjectEnd];
    let map = read_as::<HashMap<(String,), u32>>(leak(shape), &doc);
    assert_eq!(map[&("a".to_string(),)], 1);
    assert!(matches!(
        fail::<HashMap<NonZero<u32>, u32>>(&doc).kind,
        DeserErrorKind::ReflectError(ReflectError::WrongShape { .. })
    ));
}

#[test]
fn keys_for_what_has_none() {
    let mut runner = StackRunner {
        original_input: TEXT,
        input: TEXT,
        stack: vec![],
        last_span: Span::new(2, 3),
        format_source: "tokens",
        array_indices: vec![],
        enum_tuple_field_count: None,
        enum_tuple_current_field: None,
    };
    let mut wip = Partial::alloc_shape(u32::SHAPE).unwrap();
    let key = Outcome::Scalar(Scalar::String(Cow::Borrowed("k")));
    let read = Spanned { node: key, span: Span::new(0, 1) };
    let e = runner.object_key_or_object_close(&mut wip, read).unwrap_err();
    assert!(matches!(e.kind, DeserErrorKind::Unimplemented("object key for non-struct/map")));
    assert_eq!(e.span, Span::new(2, 3));
    assert!(runner.stack.is_empty());
}

#[test]
fn objects_for_what_is_no_object() {
    match fail::<u32>(&[Object]).kind {
        DeserErrorKind::UnsupportedType { wanted, .. } => {
            assert_eq!(wanted, "map, enum, struct, or tuple")
        }
        other => panic!("{:?}", other),
    }
    let mut opaque = *u32::SHAPE;
    opaque.ty = Type::User(UserType::Opaque);
    match fail_as(leak(opaque), &[Object]).kind {
        DeserErrorKind::UnsupportedType { wanted, .. } => assert_eq!(wanted, "map, enum, or struct"),
        other => panic!("{:?}", other),
    }
}

#[test]
fn end_of_an_object_in_place_of_a_value() {
    match fail::<u32>(&[ObjectEnd]).kind {
        DeserErrorKind::UnexpectedOutcome { got, wanted } => {
            assert_eq!(got, Outcome::ObjectEnded);
            assert_eq!(wanted, "value");
        }
        other => panic!("{:?}", other),
    }
    assert!(matches!(
        fail::<Vec<u32>>(&[List, ObjectEnd]).kind,
        DeserErrorKind::UnexpectedOutcome { got: Outcome::ObjectEnded, wanted: "value" }
    ));
    // What is wrong before the value is looked at comes first
    assert_eq!(overflow(&fail::<[u8; 1]>(&[List, U(1), ObjectEnd])), (<[u8; 1]>::SHAPE, 1));
    match runner().list_item_or_list_close(&mut fresh(u32::SHAPE), spanned(Outcome::ObjectEnded)) {
        Err(e) => assert!(matches!(
            e.kind,
            DeserErrorKind::UnsupportedType { wanted: "array, list, or tuple", .. }
        )),
        Ok(_) => panic!("no error"),
    }
}

fn runner() -> StackRunner<'static> {
    StackRunner {
        original_input: TEXT,
        input: TEXT,
        stack: vec![],
        last_span: Span::new(0, 0),
        format_source: "tokens",
        array_indices: vec![],
        enum_tuple_field_count: None,
        enum_tuple_current_field: None,
    }
}

fn fresh(shape: &'static Shape) -> Partial<'static> {
    Partial::alloc_shape(shape).unwrap()
}

fn spanned(node: Outcome<'static>) -> Spanned<Outcome<'static>> {
    Spanned { node, span: Span::new(1, 1) }
}

/// The frames that are there after `key` is read for a fresh value, and the instructions.
fn after_key(shape: &'static Shape, key: &'static str) -> (usize, Vec<Instruction>) {
    let mut runner = runner();
    let mut wip = fresh(shape);
    let read = spanned(Outcome::Scalar(Scalar::String(Cow::Borrowed(key))));
    runner.object_key_or_object_close(&mut wip, read).unwrap();
    (wip.frame_count(), runner.stack)
}

#[test]
fn frames_that_a_key_begins() {
    let next = Instruction::ObjectKeyOrObjectClose;
    let end = Instruction::Pop(PopReason::ObjectVal);
    let value = Instruction::Value(ValueReason::ObjectVal);
    assert_eq!(after_key(flattened("id"), "id"), (2, vec![next, end, value]));
    assert_eq!(after_key(flattened("id"), "name"), (3, vec![next, end, value]));
    assert_eq!(after_key(point(), "?"), (1, vec![next, Instruction::SkipValue]));
    assert_eq!(after_key(shade(), "Only"), (2, vec![end, next, value]));
    assert_eq!(after_key(shade(), "Level"), (1, vec![next, value]));
}

#[test]
fn end_of_a_list_in_place_of_a_value() {
    assert!(matches!(
        fail::<u32>(&[ListEnd]).kind,
        DeserErrorKind::ReflectError(ReflectError::InvariantViolation { .. })
    ));
}

#[test]
fn structs_with_more_fields_than_can_be_kept_track_of() {
    let mut shape = *<(u8,)>::SHAPE;
    let field = fields_of(&shape)[0];
    shape.ty = Type::User(UserType::Struct(StructType {
        repr: Repr::default(),
        kind: StructKind::Struct,
        fields: leak_fields(vec![field; 64]),
    }));
    let shape = leak(shape);
    let e = fail_as(shape, &[Object, Str("0"), U(1)]);
    assert!(matches!(
        e.kind,
        DeserErrorKind::Unimplemented("more than 63 fields in one struct or variant")
    ));
    assert_eq!(read_as::<(u8,)>(shape, &[Null]), (0,));
}

// ---------------------------------------------------------------------------------------------
// Enums

/// The two halves of an enum over `(u64, u64)`: its discriminant and its payload.
fn halves() -> (usize, usize) {
    let fields = fields_of(<(u64, u64)>::SHAPE);
    if fields[0].offset == 0 {
        (0, 1)
    } else {
        (1, 0)
    }
}

fn parts(value: (u64, u64)) -> (u64, u64) {
    if halves().0 == 0 {
        value
    } else {
        (value.1, value.0)
    }
}

fn variant(name: &'static str, discriminant: i64, kind: StructKind, fields: Vec<Field>) -> Variant {
    Variant {
        name,
        discriminant: Some(discriminant),
        attributes: &[],
        data: StructType { repr: Repr::default(), kind, fields: leak_fields(fields) },
        doc: &[],
    }
}

fn payload(name: &'static str, flags: FieldFlags) -> Field {
    let mut field = fields_of(<(u64, u64)>::SHAPE)[halves().1];
    field.name = name;
    field.flags = flags;
    field
}

fn enum_of(variants: Vec<Variant>, attributes: &'static [ShapeAttribute]) -> &'static Shape {
    let mut shape = *<(u64, u64)>::SHAPE;
    shape.ty = Type::User(UserType::Enum(EnumType {
        repr: Repr::default(),
        enum_repr: EnumRepr::U64,
        variants: Box::leak(variants.into_boxed_slice()),
    }));
    shape.attributes = attributes;
    leak(shape)
}

fn shades() -> Vec<Variant> {
    vec![
        variant("Dark", 0, StructKind::Unit, vec![]),
        variant("Level", 1, StructKind::Struct, vec![payload("of", PLAIN)]),
        variant("Only", 2, StructKind::Tuple, vec![payload("0", PLAIN)]),
        variant("Soft", 3, StructKind::Struct, vec![payload("of", DEFAULT)]),
    ]
}

/// `enum Shade { Dark, Level { of: u64 }, Only(u64), Soft { #[default] of: u64 } }`
fn shade() -> &'static Shape {
    enum_of(shades(), &[])
}

#[test]
fn variants_by_name() {
    assert_eq!(parts(read_as::<(u64, u64)>(shade(), &[Str("Dark")])).0, 0);
    match fail_as(shade(), &[Str("Bright")]).kind {
        DeserErrorKind::NoSuchVariant { name, enum_shape } => {
            assert_eq!(name, "Bright");
            assert_eq!(enum_shape, shade());
        }
        other => panic!("{:?}", other),
    }
}

#[test]
fn variants_as_objects() {
    let doc = [Object, Str("Level"), Object, Str("of"), U(7), ObjectEnd, ObjectEnd];
    assert_eq!(parts(read_as::<(u64, u64)>(shade(), &doc)), (1, 7));
    let doc = [Object, Str("Only"), U(8), ObjectEnd];
    assert_eq!(parts(read_as::<(u64, u64)>(shade(), &doc)), (2, 8));
    match fail_as(shade(), &[Object, Str("Bright")]).kind {
        DeserErrorKind::NoSuchVariant { name, .. } => assert_eq!(name, "Bright"),
        other => panic!("{:?}", other),
    }
}

#[test]
fn unknown_fields_of_variants() {
    let doc = [Object, Str("Level"), Object, Str("?"), U(1), Str("of"), U(7), ObjectEnd, ObjectEnd];
    assert_eq!(parts(read_as::<(u64, u64)>(shade(), &doc)), (1, 7));
    let strict = enum_of(shades(), &[ShapeAttribute::DenyUnknownFields]);
    match fail_as(strict, &doc).kind {
        DeserErrorKind::UnknownField { field_name, .. } => assert_eq!(field_name, "?"),
        other => panic!("{:?}", other),
    }
}

#[test]
fn variants_with_a_field_missing() {
    match fail_as(shade(), &[Object, Str("Level"), Object, ObjectEnd, ObjectEnd]).kind {
        DeserErrorKind::ReflectError(ReflectError::UninitializedEnumField {
            field_name,
            variant_name,
            shape,
        }) => {
            assert_eq!(field_name, "of");
            assert_eq!(variant_name, "Level");
            assert_eq!(shape, shade());
        }
        other => panic!("{:?}", other),
    }
    let doc = [Object, Str("Soft"), Object, ObjectEnd, ObjectEnd];
    assert_eq!(parts(read_as::<(u64, u64)>(shade(), &doc)), (3, 0));
}

#[test]
fn enums_with_a_default() {
    let shape = enum_of(shades(), &[ShapeAttribute::Default]);
    assert_eq!(parts(read_as::<(u64, u64)>(shape, &[Object, ObjectEnd])), (0, 0));
    // The default is of another variant, so it has no field to give
    assert!(matches!(
        fail_as(shape, &[Object, Str("Level"), Object, ObjectEnd, ObjectEnd]).kind,
        DeserErrorKind::ReflectError(ReflectError::UninitializedEnumField { .. })
    ));
    let zero = enum_of(
        vec![variant("Level", 0, StructKind::Struct, vec![payload("of", PLAIN)])],
        &[ShapeAttribute::Default],
    );
    let doc = [Object, Str("Level"), Object, ObjectEnd, ObjectEnd];
    assert_eq!(parts(read_as::<(u64, u64)>(zero, &doc)), (0, 0));
}

#[test]
fn enums_with_a_default_without_a_discriminant() {
    let level = |discriminant: i64| {
        variant("Level", discriminant, StructKind::Struct, vec![payload("of", PLAIN)])
    };
    let mut hidden = variant("Hidden", 1, StructKind::Unit, vec![]);
    hidden.discriminant = None;
    let doc = [Object, Str("Level"), Object, ObjectEnd, ObjectEnd];
    // The default tells its variant, whatever the others do
    let shape = enum_of(vec![level(0), hidden], &[ShapeAttribute::Default]);
    assert_eq!(parts(read_as::<(u64, u64)>(shape, &doc)), (0, 0));
    // The default is of no variant that has a discriminant
    let shape = enum_of(vec![level(1), hidden], &[ShapeAttribute::Default]);
    assert!(matches!(
        fail_as(shape, &doc).kind,
        DeserErrorKind::Unimplemented("default of a variant without a discriminant")
    ));
    let doc = [Object, Str("Level"), Object, Str("of"), U(5), ObjectEnd, ObjectEnd];
    assert_eq!(parts(read_as::<(u64, u64)>(shape, &doc)), (1, 5));
}

/// `enum Pair { Both(u64, u64) }`, over three numbers.
fn pair() -> &'static Shape {
    let fields = fields_of(<(u64, u64, u64)>::SHAPE);
    let held: Vec<Field> = fields.iter().copied().filter(|f| f.offset != 0).collect();
    let mut shape = *<(u64, u64, u64)>::SHAPE;
    shape.ty = Type::User(UserType::Enum(EnumType {
        repr: Repr::default(),
        enum_repr: EnumRepr::U64,
        variants: Box::leak(Box::new([variant("Both", 6, StructKind::Tuple, held)])),
    }));
    leak(shape)
}

#[test]
fn tuple_variants_as_lists() {
    let doc = [Object, Str("Both"), List, U(1), U(2), ListEnd, ObjectEnd];
    let (a, b, c) = read_as::<(u64, u64, u64)>(pair(), &doc);
    let mut held = vec![a, b, c];
    held.sort();
    assert_eq!(held, vec![1, 2, 6]);
    let doc = [Object, Str("Both"), List, U(1), U(2), U(3)];
    assert_eq!(overflow(&fail_as(pair(), &doc)).1, 2);
    let doc = [Object, Str("Level"), List];
    match fail_as(shade(), &doc).kind {
        DeserErrorKind::UnsupportedType { wanted, .. } => {
            assert_eq!(wanted, "tuple variant for array deserialization")
        }
        other => panic!("{:?}", other),
    }
}

#[test]
fn text_for_a_selected_variant() {
    assert!(matches!(
        fail_as(shade(), &[Object, Str("Level"), Str("text")]).kind,
        DeserErrorKind::ReflectError(ReflectError::WrongShape { .. })
    ));
}

// ---------------------------------------------------------------------------------------------
// The format, and where errors are

#[test]
fn errors_of_the_format() {
    let e = fail::<Vec<u32>>(&[List, U(1), Broken]);
    assert!(matches!(e.kind, DeserErrorKind::Unimplemented("broken token")));
    assert_eq!(e.span, Span::new(2, 1));
    assert_eq!(e.input, input(3));
    let e = fail_as(point(), &[Object, Str("?"), Broken]);
    assert!(matches!(e.kind, DeserErrorKind::Unimplemented("nothing to skip")));
    assert_eq!(e.span, Span::new(2, 1));
    let e = fail::<u32>(&[]);
    assert!(matches!(e.kind, DeserErrorKind::Unimplemented("end of tokens")));
}

/// Carries out instructions with the given answers, and returns what came of each but the last.
fn carry_out(
    shape: &'static Shape,
    answers: Vec<Answer<'static>>,
) -> Result<HeapValue<'static>, DeserError<'static>> {
    let mut data = NextData::new(fresh(shape), input(2), "tokens");
    for answer in answers {
        match data.carry_out(answer)? {
            Advance::Continue => {}
            Advance::Finish(value) => return Ok(value),
            Advance::Float(_) => panic!("a number to store"),
        }
    }
    panic!("no value")
}

fn got(node: Outcome<'static>) -> Answer<'static> {
    Answer::Read(Ok(spanned(node)))
}

#[test]
fn answers_lead_to_a_value() {
    let shape = leak(struct_of::<(u8,)>(&[("a", PLAIN)], &[]));
    let key = || got(Outcome::Scalar(Scalar::String(Cow::Borrowed("a"))));
    let value = carry_out(
        shape,
        vec![
            got(Outcome::ObjectStarted),
            key(),
            got(Outcome::Scalar(Scalar::U64(1))),
            Answer::Silent,
            got(Outcome::ObjectEnded),
            Answer::Silent,
        ],
    );
    assert_eq!(value.unwrap().materialize::<(u8,)>().unwrap(), (1,));
    let failed = carry_out(
        shape,
        vec![
            got(Outcome::ObjectStarted),
            key(),
            Answer::Read(Err(Spanned {
                node: DeserErrorKind::Unimplemented("broken"),
                span: Span::new(7, 2),
            })),
        ],
    );
    match failed {
        Err(e) => {
            assert!(matches!(e.kind, DeserErrorKind::Unimplemented("broken")));
            assert_eq!(e.span, Span::new(7, 2));
            assert_eq!(e.input, input(2));
        }
        Ok(_) => panic!("no error"),
    }
    let skipped = carry_out(
        <()>::SHAPE,
        vec![
            got(Outcome::ObjectStarted),
            got(Outcome::Scalar(Scalar::String(Cow::Borrowed("?")))),
            Answer::Skipped(Ok(Span::new(3, 4))),
            got(Outcome::ObjectEnded),
            Answer::Silent,
        ],
    );
    assert!(skipped.is_ok());
}

#[test]
fn the_format_is_asked_once_for_each_piece() {
    let shape = leak(struct_of::<(u8,)>(&[("a", PLAIN)], &[]));
    let mut format = Tokens::new(&[Object, Str("a"), U(1), ObjectEnd]);
    let value = drive(shape, &mut format).unwrap();
    assert_eq!(value.materialize::<(u8,)>().unwrap(), (1,));
    assert_eq!(
        format.asked,
        vec![
            Expectation::Value,
            Expectation::ObjectKeyOrObjectClose,
            Expectation::ObjectVal,
            Expectation::ObjectKeyOrObjectClose,
        ]
    );
    assert_eq!(format.starts, vec![0, 1, 2, 3]);
    assert_eq!(format.skipped, 0);
    let mut format =
        Tokens::new(&[Object, Str("z"), List, U(0), ListEnd, Str("a"), U(1), ObjectEnd]);
    let value = drive(shape, &mut format).unwrap();
    assert_eq!(value.materialize::<(u8,)>().unwrap(), (1,));
    assert_eq!(format.starts, vec![0, 1, 5, 6, 7]);
    assert_eq!(format.skipped, 1);
    let mut format = Tokens::new(&[U(5)]);
    assert_eq!(drive(u32::SHAPE, &mut format).unwrap().materialize::<u32>().unwrap(), 5);
    assert_eq!(format.asked, vec![Expectation::Value]);
}

#[test]
fn input_behind_the_value() {
    for toks in [&[U(5), U(6)][..], &[List, ListEnd, Null]] {
        let shape = if toks.len() == 2 { u32::SHAPE } else { <Vec<u32>>::SHAPE };
        let mut format = Tokens::new(toks);
        let e = drive(shape, &mut format).err().unwrap();
        assert!(matches!(e.kind, DeserErrorKind::InputLeft));
        assert_eq!(e.span, Span::new(toks.len() - 2, 1));
        assert_eq!(e.input, format.input);
        assert_eq!(format.pos, toks.len() - 1);
    }
    // What is missing from the value comes first
    let shape = leak(struct_of::<(u8,)>(&[("a", PLAIN)], &[]));
    assert!(matches!(
        fail_as(shape, &[Object, ObjectEnd, Null]).kind,
        DeserErrorKind::ReflectError(ReflectError::UninitializedField { field_name: "a", .. })
    ));
}

#[test]
fn a_list_of_many_items() {
    let items: Vec<u32> = (0..60).map(|i| i * i).collect();
    let mut toks = vec![List];
    toks.extend(items.iter().map(|i| U(*i as u64)));
    toks.push(ListEnd);
    let mut format = Tokens::new(&toks);
    let value = drive(<Vec<u32>>::SHAPE, &mut format).unwrap();
    assert_eq!(value.materialize::<Vec<u32>>().unwrap(), items);
    assert_eq!(format.asked.len(), items.len() + 2);
    assert_eq!(format.asked[0], Expectation::Value);
    assert!(format.asked[1..].iter().all(|e| *e == Expectation::ListItemOrListClose));
}

#[test]
fn the_order_of_the_keys() {
    let one = [Object, Str("x"), U(1), Str("name"), Str("n"), ObjectEnd];
    let other = [Object, Str("name"), Str("n"), Str("x"), U(1), ObjectEnd];
    let expected = (1, "n".to_string());
    assert_eq!(read_as::<(u32, String)>(point(), &one), expected);
    assert_eq!(read_as::<(u32, String)>(point(), &other), expected);
}

#[test]
fn arrays_with_an_element_missing() {
    for doc in [&[List, ListEnd][..], &[List, U(1), ListEnd], &[List, U(1), U(2), ListEnd]] {
        assert!(matches!(
            fail::<[u8; 3]>(doc).kind,
            DeserErrorKind::ReflectError(ReflectError::UninitializedValue { .. })
        ));
    }
    assert!(matches!(
        fail::<Vec<[u8; 2]>>(&[List, List, U(1), ListEnd, ListEnd]).kind,
        DeserErrorKind::ReflectError(ReflectError::UninitializedValue { .. })
    ));
    assert_eq!(read::<[u8; 3]>(&[List, U(1), U(2), U(3), ListEnd]), [1, 2, 3]);
}

#[test]
fn input_past_the_largest_offset() {
    let e = fail_as(point(), &[FarAway, Str("x")]);
    assert!(matches!(e.kind, DeserErrorKind::Unimplemented("input past the largest offset")));
    assert_eq!(e.span, Span::new(usize::MAX, 1));
}

#[test]
fn types_that_cannot_be_allocated() {
    let e = fail_as(<str as Facet<'static>>::SHAPE, &[Str("x")]);
    assert!(matches!(e.kind, DeserErrorKind::ReflectError(ReflectError::Unsized { .. })));
    assert_eq!(e.span, Span::default());
    assert_eq!(e.input, input(1));
}

#[test]
fn a_value_begun_elsewhere() {
    let wip = Partial::alloc_shape(<Vec<u8>>::SHAPE).unwrap();
    let mut format = Tokens::new(&[List, U(1), ListEnd]);
    match deserialize_wip(wip, input(3), &mut format) {
        Ok(Progress::Done(value)) => assert_eq!(value.materialize::<Vec<u8>>().unwrap(), vec![1]),
        _ => panic!("not done"),
    }
}

#[test]
fn wrong_type_at_the_end() {
    let value = drive(u32::SHAPE, &mut Tokens::new(&[U(1)])).unwrap();
    assert!(matches!(value.materialize::<u64>(), Err(ReflectError::WrongShape { .. })));
}
