use differs::{AsField, FieldName, HasFields, PathPrefix};
use std::collections::{HashMap, HashSet};

// Field-path builders, written the way a type describes its own fields.

#[allow(dead_code)]
struct Baz {
    d: &'static str,
}

pub struct BazFields(PathPrefix);

impl BazFields {
    fn d(&self) -> FieldName {
        self.0.field("d")
    }
}

impl HasFields for Baz {
    type Fields = BazFields;
    fn fields() -> BazFields {
        BazFields(PathPrefix::root())
    }
}

#[allow(dead_code)]
struct Bar {
    c: &'static str,
    b: Baz,
}

pub struct BarFields(PathPrefix);

impl BarFields {
    fn c(&self) -> FieldName {
        self.0.field("c")
    }
    fn b(&self) -> BazFields {
        BazFields(self.0.nested("b"))
    }
}

#[allow(dead_code)]
struct Foo {
    a: i32,
    bar: Bar,
}

pub struct FooFields(PathPrefix);

impl FooFields {
    fn a(&self) -> FieldName {
        self.0.field("a")
    }
    fn bar(&self) -> BarFields {
        BarFields(self.0.nested("bar"))
    }
}

impl HasFields for Foo {
    type Fields = FooFields;
    fn fields() -> FooFields {
        FooFields(PathPrefix::root())
    }
}

#[allow(dead_code)]
pub struct Vec2(pub f32, pub f32);

pub struct Vec2Fields(PathPrefix);

impl Vec2Fields {
    fn item0(&self) -> FieldName {
        self.0.field("item0")
    }
    fn item1(&self) -> FieldName {
        self.0.field("item1")
    }
}

impl HasFields for Vec2 {
    type Fields = Vec2Fields;
    fn fields() -> Vec2Fields {
        Vec2Fields(PathPrefix::root())
    }
}

#[allow(dead_code)]
pub enum Message {
    Quit,
    Move(i32, i32),
    Write { text: String },
}

pub struct MessageFields(PathPrefix);

pub struct MessageMoveFields(PathPrefix);

pub struct MessageWriteFields(PathPrefix);

#[allow(non_snake_case)]
impl MessageFields {
    fn Quit(&self) -> FieldName {
        self.0.field("Quit")
    }
    fn Move(&self) -> MessageMoveFields {
        MessageMoveFields(self.0.nested("Move"))
    }
    fn Write(&self) -> MessageWriteFields {
        MessageWriteFields(self.0.nested("Write"))
    }
}

impl MessageMoveFields {
    fn item0(&self) -> FieldName {
        self.0.field("item0")
    }
    fn item1(&self) -> FieldName {
        self.0.field("item1")
    }
}

impl AsField for MessageMoveFields {
    fn as_field(&self) -> FieldName {
        self.0.as_field()
    }
}

impl MessageWriteFields {
    fn text(&self) -> FieldName {
        self.0.field("text")
    }
}

impl AsField for MessageWriteFields {
    fn as_field(&self) -> FieldName {
        self.0.as_field()
    }
}

impl HasFields for Message {
    type Fields = MessageFields;
    fn fields() -> MessageFields {
        MessageFields(PathPrefix::root())
    }
}

#[allow(dead_code)]
pub struct SimpleStruct {
    name: String,
    age: u32,
    active: bool,
}

pub struct SimpleStructFields(PathPrefix);

impl SimpleStructFields {
    fn name(&self) -> FieldName {
        self.0.field("name")
    }
    fn age(&self) -> FieldName {
        self.0.field("age")
    }
    fn active(&self) -> FieldName {
        self.0.field("active")
    }
}

impl HasFields for SimpleStruct {
    type Fields = SimpleStructFields;
    fn fields() -> SimpleStructFields {
        SimpleStructFields(PathPrefix::root())
    }
}

#[allow(dead_code)]
struct Address {
    street: String,
    city: String,
    zip: String,
}

pub struct AddressFields(PathPrefix);

impl AddressFields {
    fn street(&self) -> FieldName {
        self.0.field("street")
    }
    fn city(&self) -> FieldName {
        self.0.field("city")
    }
    fn zip(&self) -> FieldName {
        self.0.field("zip")
    }
}

impl AsField for AddressFields {
    fn as_field(&self) -> FieldName {
        self.0.as_field()
    }
}

impl HasFields for Address {
    type Fields = AddressFields;
    fn fields() -> AddressFields {
        AddressFields(PathPrefix::root())
    }
}

#[allow(dead_code)]
struct Person {
    id: u32,
    name: String,
    address: Address,
    tags: Vec<String>,
    roles: HashSet<String>,
    metadata: HashMap<String, String>,
}

pub struct PersonFields(PathPrefix);

impl PersonFields {
    fn name(&self) -> FieldName {
        self.0.field("name")
    }
    fn address(&self) -> AddressFields {
        AddressFields(self.0.nested("address"))
    }
    fn tags(&self) -> FieldName {
        self.0.field("tags")
    }
    fn roles(&self) -> FieldName {
        self.0.field("roles")
    }
    fn metadata(&self) -> FieldName {
        self.0.field("metadata")
    }
}

impl AsField for PersonFields {
    fn as_field(&self) -> FieldName {
        self.0.as_field()
    }
}

impl HasFields for Person {
    type Fields = PersonFields;
    fn fields() -> PersonFields {
        PersonFields(PathPrefix::root())
    }
}

#[allow(dead_code)]
struct WithSkippedField {
    included: String,
    skipped: String,
}

pub struct WithSkippedFieldFields(PathPrefix);

impl WithSkippedFieldFields {
    fn included(&self) -> FieldName {
        self.0.field("included")
    }
}

impl HasFields for WithSkippedField {
    type Fields = WithSkippedFieldFields;
    fn fields() -> WithSkippedFieldFields {
        WithSkippedFieldFields(PathPrefix::root())
    }
}

#[allow(dead_code)]
struct TupleStruct(String, u32, bool);

pub struct TupleStructFields(PathPrefix);

impl TupleStructFields {
    fn item0(&self) -> FieldName {
        self.0.field("item0")
    }
    fn item1(&self) -> FieldName {
        self.0.field("item1")
    }
    fn item2(&self) -> FieldName {
        self.0.field("item2")
    }
}

impl HasFields for TupleStruct {
    type Fields = TupleStructFields;
    fn fields() -> TupleStructFields {
        TupleStructFields(PathPrefix::root())
    }
}

struct UnitStruct;

pub struct UnitStructFields(PathPrefix);

impl UnitStructFields {
    fn self_(&self) -> FieldName {
        self.0.field("")
    }
}

impl HasFields for UnitStruct {
    type Fields = UnitStructFields;
    fn fields() -> UnitStructFields {
        UnitStructFields(PathPrefix::root())
    }
}

#[allow(dead_code)]
enum MessageComplex {
    Quit,
    Move(i32, i32),
    Write { text: String },
    Complex { id: u32, data: Vec<String> },
}

pub struct MessageComplexFields(PathPrefix);

pub struct MessageComplexWriteFields(PathPrefix);

pub struct MessageComplexComplexFields(PathPrefix);

#[allow(non_snake_case)]
impl MessageComplexFields {
    fn Write(&self) -> MessageComplexWriteFields {
        MessageComplexWriteFields(self.0.nested("Write"))
    }
    fn Complex(&self) -> MessageComplexComplexFields {
        MessageComplexComplexFields(self.0.nested("Complex"))
    }
}

impl MessageComplexWriteFields {
    fn text(&self) -> FieldName {
        self.0.field("text")
    }
}

impl MessageComplexComplexFields {
    fn id(&self) -> FieldName {
        self.0.field("id")
    }
    fn data(&self) -> FieldName {
        self.0.field("data")
    }
}

impl AsField for MessageComplexComplexFields {
    fn as_field(&self) -> FieldName {
        self.0.as_field()
    }
}

impl HasFields for MessageComplex {
    type Fields = MessageComplexFields;
    fn fields() -> MessageComplexFields {
        MessageComplexFields(PathPrefix::root())
    }
}

#[allow(dead_code)]
enum SimpleEnum {
    A,
    B,
    C,
}

pub struct SimpleEnumFields(PathPrefix);

#[allow(non_snake_case)]
impl SimpleEnumFields {
    fn A(&self) -> FieldName {
        self.0.field("A")
    }
    fn B(&self) -> FieldName {
        self.0.field("B")
    }
    fn C(&self) -> FieldName {
        self.0.field("C")
    }
}

impl HasFields for SimpleEnum {
    type Fields = SimpleEnumFields;
    fn fields() -> SimpleEnumFields {
        SimpleEnumFields(PathPrefix::root())
    }
}

#[test]
fn scalar_field_path() {
    assert_eq!(Foo::fields().a().as_str(), "a");
}

#[test]
fn nested_field_paths() {
    assert_eq!(Foo::fields().bar().c().as_str(), "bar.c");
    assert_eq!(Foo::fields().bar().b().d().as_str(), "bar.b.d");
}

#[test]
fn tuple_struct_items() {
    assert_eq!(Vec2::fields().item0().as_str(), "item0");
    assert_eq!(Vec2::fields().item1().as_str(), "item1");
}

#[test]
fn enum_variant_paths() {
    assert_eq!(Message::fields().Quit().as_str(), "Quit");
    assert_eq!(Message::fields().Move().item0().as_str(), "Move.item0");
    assert_eq!(Message::fields().Move().item1().as_str(), "Move.item1");
    assert_eq!(Message::fields().Write().text().as_str(), "Write.text");
}

#[test]
fn fieldname_join_helper() {
    let root = FieldName::static_lit("root");
    let child = FieldName::join(root.as_str(), "child");
    assert_eq!(child.as_str(), "root.child");
}

#[test]
fn test_simple_struct_fields() {
    let name_field = SimpleStruct::fields().name();
    let age_field = SimpleStruct::fields().age();
    let active_field = SimpleStruct::fields().active();

    assert_eq!(name_field.as_str(), "name");
    assert_eq!(age_field.as_str(), "age");
    assert_eq!(active_field.as_str(), "active");
}

#[test]
fn test_nested_struct_fields() {
    let address_street = Person::fields().address().street();
    let address_city = Person::fields().address().city();
    let address_zip = Person::fields().address().zip();

    assert_eq!(address_street.as_str(), "address.street");
    assert_eq!(address_city.as_str(), "address.city");
    assert_eq!(address_zip.as_str(), "address.zip");
}

#[test]
fn test_container_fields() {
    let tags_field = Person::fields().tags();
    let roles_field = Person::fields().roles();
    let metadata_field = Person::fields().metadata();

    assert_eq!(tags_field.as_str(), "tags");
    assert_eq!(roles_field.as_str(), "roles");
    assert_eq!(metadata_field.as_str(), "metadata");
}

#[test]
fn test_fields_derive_test_skipped_fields() {
    let included_field = WithSkippedField::fields().included();
    assert_eq!(included_field.as_str(), "included");

    // The skipped field has no method on the builder.
}

#[test]
fn test_tuple_struct_fields() {
    let item0 = TupleStruct::fields().item0();
    let item1 = TupleStruct::fields().item1();
    let item2 = TupleStruct::fields().item2();

    assert_eq!(item0.as_str(), "item0");
    assert_eq!(item1.as_str(), "item1");
    assert_eq!(item2.as_str(), "item2");
}

#[test]
fn test_unit_struct_fields() {
    let self_field = UnitStruct::fields().self_();
    assert_eq!(self_field.as_str(), "");
}

#[test]
fn test_enum_unit_variants() {
    let quit_field = Message::fields().Quit();
    let a_field = SimpleEnum::fields().A();
    let b_field = SimpleEnum::fields().B();
    let c_field = SimpleEnum::fields().C();

    assert_eq!(quit_field.as_str(), "Quit");
    assert_eq!(a_field.as_str(), "A");
    assert_eq!(b_field.as_str(), "B");
    assert_eq!(c_field.as_str(), "C");
}

#[test]
fn test_enum_tuple_variants() {
    let move_item0 = Message::fields().Move().item0();
    let move_item1 = Message::fields().Move().item1();

    assert_eq!(move_item0.as_str(), "Move.item0");
    assert_eq!(move_item1.as_str(), "Move.item1");
}

#[test]
fn test_enum_struct_variants() {
    let write_text = MessageComplex::fields().Write().text();
    let complex_id = MessageComplex::fields().Complex().id();
    let complex_data = MessageComplex::fields().Complex().data();

    assert_eq!(write_text.as_str(), "Write.text");
    assert_eq!(complex_id.as_str(), "Complex.id");
    assert_eq!(complex_data.as_str(), "Complex.data");
}

#[test]
fn test_as_field_trait() {
    // FieldName implements AsField
    let field = Person::fields().name();
    let as_field = field.as_field();
    assert_eq!(as_field.as_str(), "name");

    // &str implements AsField
    let str_field: &str = "test.field";
    let as_field = str_field.as_field();
    assert_eq!(as_field.as_str(), "test.field");

    // String implements AsField
    let string_field = "another.test".to_string();
    let as_field = string_field.as_field();
    assert_eq!(as_field.as_str(), "another.test");
}

#[test]
fn test_field_name_methods() {
    let field = Person::fields().address().city();

    assert_eq!(field.as_str(), "address.city");

    let debug_str = format!("{:?}", field);
    assert!(debug_str.contains("address.city"));

    let cloned = field.clone();
    assert_eq!(cloned.as_str(), field.as_str());

    let same_field = Person::fields().address().city();
    assert_eq!(field, same_field);

    let different_field = Person::fields().address().street();
    assert_ne!(field, different_field);
}

#[test]
fn test_has_fields_trait() {
    let _ = SimpleStruct::fields();
    let _ = Person::fields();
    let _ = Address::fields();
    let _ = TupleStruct::fields();
    let _ = UnitStruct::fields();
    let _ = Message::fields();
    let _ = SimpleEnum::fields();
}

#[test]
fn test_nested_field_chaining() {
    let nested_field = Person::fields().address().street();
    assert_eq!(nested_field.as_str(), "address.street");

    let address_fields = Person::fields().address();
    let street_from_intermediate = address_fields.street();
    assert_eq!(street_from_intermediate.as_str(), "address.street");
}

#[test]
fn test_field_name_static_construction() {
    let static_field = FieldName::static_lit("test");
    assert_eq!(static_field.as_str(), "test");

    let string_field = FieldName::from_string("dynamic.test".to_string());
    assert_eq!(string_field.as_str(), "dynamic.test");

    let joined = FieldName::join("prefix", "suffix");
    assert_eq!(joined.as_str(), "prefix.suffix");

    let joined_empty_prefix = FieldName::join("", "field");
    assert_eq!(joined_empty_prefix.as_str(), "field");

    let joined_empty_suffix = FieldName::join("prefix", "");
    assert_eq!(joined_empty_suffix.as_str(), "prefix");
}

#[test]
fn test_enum_proxy_as_field() {
    let move_proxy = Message::fields().Move();
    let move_as_field = move_proxy.as_field();
    assert_eq!(move_as_field.as_str(), "Move");

    let write_proxy = Message::fields().Write();
    let write_as_field = write_proxy.as_field();
    assert_eq!(write_as_field.as_str(), "Write");

    let complex_proxy = MessageComplex::fields().Complex();
    let complex_as_field = complex_proxy.as_field();
    assert_eq!(complex_as_field.as_str(), "Complex");
}

#[test]
fn test_root_fields_as_field() {
    let person_fields = Person::fields();
    let as_field = person_fields.as_field();
    assert_eq!(as_field.as_str(), "");

    let address_fields = Person::fields().address();
    let address_as_field = address_fields.as_field();
    assert_eq!(address_as_field.as_str(), "address");
}

#[test]
fn test_multiple_enum_variants_same_name_different_types() {
    let write_text = MessageComplex::fields().Write().text();
    let complex_id = MessageComplex::fields().Complex().id();

    assert_eq!(write_text.as_str(), "Write.text");
    assert_eq!(complex_id.as_str(), "Complex.id");

    assert_ne!(write_text.as_str(), complex_id.as_str());
}

#[test]
fn test_field_comparison_and_hashing() {
    let field1 = Person::fields().name();
    let field2 = Person::fields().name();
    let field3 = Person::fields().address().city();

    assert_eq!(field1, field2);
    assert_ne!(field1, field3);

    let mut map = HashMap::new();
    map.insert(field1.clone(), "value1");
    map.insert(field3.clone(), "value2");

    assert_eq!(map.get(&field2), Some(&"value1"));
    assert_eq!(map.len(), 2);
}
