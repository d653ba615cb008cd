//! The schema model: fields, definitions and schemas, with their validity rules.
use vstd::prelude::*;

verus! {

/// Errors reported by construction, schema decoding and value decoding.
#[derive(Clone, Copy, Debug, PartialEq, Eq, Structural)]
pub enum SchemaError {
    InvalidName,
    InvalidType,
    TruncatedInput,
    UnknownTag,
    UnknownDefinition,
    UnsupportedType,
}

/// The primitive wire types a field may hold.
#[derive(Clone, Copy, Debug, PartialEq, Eq, Structural)]
pub enum TypeId {
    Int,
    Float,
    Byte,
    DefRef,
}

/// The shape of a definition.
#[derive(Clone, Copy, Debug, PartialEq, Eq, Structural)]
pub enum DefKind {
    Struct,
}

impl TypeId {
    /// The one-byte tag written for this type.
    pub open spec fn spec_tag(self) -> u8 {
        match self {
            TypeId::Int => 0,
            TypeId::Float => 1,
            TypeId::Byte => 2,
            TypeId::DefRef => 3,
        }
    }

    pub open spec fn spec_from_tag(t: u8) -> Option<TypeId> {
        if t == 0 {
            Some(TypeId::Int)
        } else if t == 1 {
            Some(TypeId::Float)
        } else if t == 2 {
            Some(TypeId::Byte)
        } else if t == 3 {
            Some(TypeId::DefRef)
        } else {
            None
        }
    }

    /// Number of bytes that a default value of this type takes in a schema.
    pub open spec fn spec_width(self) -> nat {
        match self {
            TypeId::Byte => 1,
            _ => 4,
        }
    }

    /// Number of bytes of one element in a value payload; `None` where raw
    /// payloads of this type cannot be read.
    pub open spec fn spec_value_width(self) -> Option<nat> {
        match self {
            TypeId::DefRef => None,
            TypeId::Byte => Some(1),
            _ => Some(4),
        }
    }

    /// Whether `v` is representable as a default value of this type.
    pub open spec fn holds(self, v: u32) -> bool {
        self.spec_width() == 1 ==> v < 256
    }

    pub fn tag(self) -> (r: u8)
        ensures
            r == self.spec_tag(),
    {
        match self {
            TypeId::Int => 0,
            TypeId::Float => 1,
            TypeId::Byte => 2,
            TypeId::DefRef => 3,
        }
    }

    pub fn from_tag(t: u8) -> (r: Option<TypeId>)
        ensures
            r == Self::spec_from_tag(t),
    {
        if t == 0 {
            Some(TypeId::Int)
        } else if t == 1 {
            Some(TypeId::Float)
        } else if t == 2 {
            Some(TypeId::Byte)
        } else if t == 3 {
            Some(TypeId::DefRef)
        } else {
            None
        }
    }

    pub fn width(self) -> (r: usize)
        ensures
            r == self.spec_width(),
    {
        match self {
            TypeId::Byte => 1,
            _ => 4,
        }
    }

    pub fn value_width(self) -> (r: Option<usize>)
        ensures
            r matches Some(w) ==> self.spec_value_width() == Some(w as nat),
            r is None <==> self.spec_value_width() is None,
    {
        match self {
            TypeId::DefRef => None,
            TypeId::Byte => Some(1),
            _ => Some(4),
        }
    }

    pub fn accepts(self, v: u32) -> (r: bool)
        ensures
            r == self.holds(v),
    {
        match self {
            TypeId::Byte => v < 256,
            _ => true,
        }
    }
}

/// Mathematical content of a field.
pub struct FieldModel {
    pub name: Seq<char>,
    pub type_id: TypeId,
    pub is_array: bool,
    pub value: u32,
}

/// Mathematical content of a definition.
pub struct DefModel {
    pub name: Seq<char>,
    pub kind: DefKind,
    pub fields: Seq<FieldModel>,
}

/// Mathematical content of a schema.
pub struct SchemaModel {
    pub defs: Seq<DefModel>,
}

/// One named, typed slot of a definition, with its default value.
#[derive(Clone, Debug, PartialEq, Eq)]
pub struct Field {
    pub name: String,
    pub type_id: TypeId,
    pub is_array: bool,
    pub value: u32,
}

/// A named definition made of an ordered sequence of fields.
#[derive(Clone, Debug, PartialEq, Eq)]
pub struct Def {
    pub name: String,
    pub kind: DefKind,
    pub fields: Vec<Field>,
}

/// An ordered collection of definitions.
#[derive(Clone, Debug, PartialEq, Eq)]
pub struct Schema {
    pub defs: Vec<Def>,
}

impl View for Field {
    type V = FieldModel;

    open spec fn view(&self) -> FieldModel {
        FieldModel {
            name: self.name@,
            type_id: self.type_id,
            is_array: self.is_array,
            value: self.value,
        }
    }
}

pub open spec fn fields_model(fs: Seq<Field>) -> Seq<FieldModel> {
    fs.map_values(|f: Field| f@)
}

impl View for Def {
    type V = DefModel;

    open spec fn view(&self) -> DefModel {
        DefModel { name: self.name@, kind: self.kind, fields: fields_model(self.fields@) }
    }
}

pub open spec fn defs_model(ds: Seq<Def>) -> Seq<DefModel> {
    ds.map_values(|d: Def| d@)
}

impl View for Schema {
    type V = SchemaModel;

    open spec fn view(&self) -> SchemaModel {
        SchemaModel { defs: defs_model(self.defs@) }
    }
}

impl FieldModel {
    pub open spec fn valid(self) -> bool {
        self.name.len() > 0 && self.type_id.holds(self.value)
    }
}

/// The names of a definition and of all its fields are non-empty, and no two
/// fields share a name.
pub open spec fn names_ok(name: Seq<char>, fs: Seq<FieldModel>) -> bool {
    &&& name.len() > 0
    &&& forall|i: int| 0 <= i < fs.len() ==> #[trigger] fs[i].name.len() > 0
    &&& forall|i: int, j: int|
        0 <= i < j < fs.len() ==> #[trigger] fs[i].name != #[trigger] fs[j].name
}

/// Every default value is representable in its field's type.
pub open spec fn values_ok(fs: Seq<FieldModel>) -> bool {
    forall|i: int| 0 <= i < fs.len() ==> (#[trigger] fs[i]).type_id.holds(fs[i].value)
}

impl DefModel {
    pub open spec fn valid(self) -> bool {
        names_ok(self.name, self.fields) && values_ok(self.fields)
    }
}

impl SchemaModel {
    pub open spec fn valid(self) -> bool {
        forall|i: int| 0 <= i < self.defs.len() ==> (#[trigger] self.defs[i]).valid()
    }
}

impl Field {
    /// A field with a non-empty name whose default value fits its type.
    pub fn new(name: String, type_id: TypeId, is_array: bool, value: u32) -> (r: Result<
        Field,
        SchemaError,
    >)
        ensures
            name@.len() == 0 ==> r == Err::<Field, SchemaError>(SchemaError::InvalidName),
            name@.len() > 0 && !type_id.holds(value) ==> r == Err::<Field, SchemaError>(
                SchemaError::InvalidType,
            ),
            r is Ok <==> name@.len() > 0 && type_id.holds(value),
            r matches Ok(f) ==> f@ == (FieldModel { name: name@, type_id, is_array, value }),
    {
        if name.as_str().is_empty() {
            return Err(SchemaError::InvalidName);
        }
        if !type_id.accepts(value) {
            return Err(SchemaError::InvalidType);
        }
        Ok(Field { name, type_id, is_array, value })
    }
}

fn same_name(a: &String, b: &String) -> (r: bool)
    ensures
        r == (a@ == b@),
{
    a.eq(b)
}

impl Def {
    /// A definition whose names are non-empty and distinct, checked first,
    /// and whose default values fit their types, checked next.
    pub fn new(name: String, kind: DefKind, fields: Vec<Field>) -> (r: Result<Def, SchemaError>)
        ensures
            !names_ok(name@, fields_model(fields@)) ==> r == Err::<Def, SchemaError>(
                SchemaError::InvalidName,
            ),
            names_ok(name@, fields_model(fields@)) && !values_ok(fields_model(fields@)) ==> r
                == Err::<Def, SchemaError>(SchemaError::InvalidType),
            r is Ok <==> names_ok(name@, fields_model(fields@)) && values_ok(
                fields_model(fields@),
            ),
            r matches Ok(d) ==> d@ == (DefModel {
                name: name@,
                kind,
                fields: fields_model(fields@),
            }),
    {
        let ghost fs = fields_model(fields@);
        if name.as_str().is_empty() {
            return Err(SchemaError::InvalidName);
        }
        let mut i: usize = 0;
        while i < fields.len()
            invariant
                fs == fields_model(fields@),
                0 <= i <= fields.len(),
                forall|k: int| 0 <= k < i ==> #[trigger] fs[k].name.len() > 0,
                forall|k: int, j: int| 0 <= k < j < i ==> #[trigger] fs[k].name != #[trigger] fs[j].name,
            decreases fields.len() - i,
        {
            if fields[i].name.as_str().is_empty() {
                assert(fs[i as int].name.len() == 0);
                return Err(SchemaError::InvalidName);
            }
            let mut j: usize = 0;
            while j < i
                invariant
                    fs == fields_model(fields@),
                    0 <= j <= i < fields.len(),
                    forall|k: int| 0 <= k < j ==> #[trigger] fs[k].name != fs[i as int].name,
                decreases i - j,
            {
                if same_name(&fields[j].name, &fields[i].name) {
                    assert(fs[j as int].name == fs[i as int].name);
                    return Err(SchemaError::InvalidName);
                }
                j += 1;
            }
            i += 1;
        }
        let mut i: usize = 0;
        while i < fields.len()
            invariant
                fs == fields_model(fields@),
                names_ok(name@, fs),
                0 <= i <= fields.len(),
                forall|k: int| 0 <= k < i ==> (#[trigger] fs[k]).type_id.holds(fs[k].value),
            decreases fields.len() - i,
        {
            if !fields[i].type_id.accepts(fields[i].value) {
                assert(!fs[i as int].type_id.holds(fs[i as int].value));
                return Err(SchemaError::InvalidType);
            }
            i += 1;
        }
        Def { name, kind, fields }.ok_of()
    }

    fn ok_of(self) -> (r: Result<Def, SchemaError>)
        ensures
            r == Ok::<Def, SchemaError>(self),
    {
        Ok(self)
    }
}

impl Schema {
    /// A schema holding `defs` in the given order.
    pub fn new(defs: Vec<Def>) -> (r: Schema)
        ensures
            r.defs@ == defs@,
            r@.defs == defs_model(defs@),
    {
        Schema { defs }
    }
}

} // verus!
