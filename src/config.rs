use vstd::prelude::*;
use crate::aggregate::{Field as TableField, Index as TableIndex, TableDef, has_field};
use crate::log_record::{Accessor, split_on, strs};
use crate::operation::OpType;
use crate::text::{str_eq, str_eq_ignore_case, eq_ignore_case};
use crate::value::LogValueType;

verus! {

/// The run's settings, as read from the configuration file.
#[derive(Clone, Debug)]
pub struct Config {
    pub index: Index,
    pub fields: Vec<Field>,
    pub order_by: Option<String>,
    pub order: Option<String>,
    pub output_format: Option<String>,
}

/// One column of the configuration.
#[derive(Clone, Debug)]
pub struct Field {
    pub name: String,
    pub accessor: String,
    pub dtype: String,
    pub operation: String,
}

/// The key of the configuration.
#[derive(Clone, Debug)]
pub struct Index {
    pub name: String,
    pub accessor: String,
}

/// Why a configuration was rejected.
#[derive(Clone, Copy, Debug, PartialEq, Eq, Structural)]
pub enum ConfigError {
    /// `order_by` names no configured field.
    InvalidOrderBy,
    /// `order` is neither `asc` nor `desc`.
    InvalidOrder,
}

/// The value type that a `dtype` word names; any other word leaves it unspecified.
pub open spec fn dtype_of(s: Seq<char>) -> LogValueType {
    if s == "string"@ {
        LogValueType::String
    } else if s == "integer"@ {
        LogValueType::Integer
    } else if s == "float"@ {
        LogValueType::Float
    } else if s == "second"@ {
        LogValueType::Second
    } else {
        LogValueType::Unspecified
    }
}

/// The reducer that an `operation` word names; any other word means average.
pub open spec fn op_of(s: Seq<char>) -> OpType {
    if s == "count"@ {
        OpType::Count
    } else {
        OpType::Average
    }
}

/// Whether some configured field is named `name`.
pub open spec fn names_field(fields: Seq<Field>, name: Seq<char>) -> bool {
    exists|i: int| 0 <= i < fields.len() && (#[trigger] fields[i]).name@ == name
}

/// Whether the configured `order` is acceptable.
pub open spec fn order_ok(order: Option<String>) -> bool {
    match order {
        Some(o) => eq_ignore_case(o@, "asc"@) || eq_ignore_case(o@, "desc"@),
        None => true,
    }
}

/// Whether rows sort ascending under the configured `order`.
pub open spec fn ascending_of(order: Option<String>) -> bool {
    match order {
        Some(o) => eq_ignore_case(o@, "asc"@),
        None => true,
    }
}

/// `f` is the column that the configured `c` describes.
pub open spec fn column_of(f: TableField, c: Field) -> bool {
    &&& f.accessor.name@ == c.name@
    &&& strs(f.accessor.path@) == split_on(c.accessor@, '.')
    &&& f.accessor.dtype == dtype_of(c.dtype@)
    &&& f.op_type == op_of(c.operation@)
}

fn dtype_from(s: &String) -> (r: LogValueType)
    ensures
        r == dtype_of(s@),
{
    proof {
        reveal_strlit("string");
        reveal_strlit("integer");
        reveal_strlit("float");
        reveal_strlit("second");
    }
    if str_eq(s.as_str(), "string") {
        LogValueType::String
    } else if str_eq(s.as_str(), "integer") {
        LogValueType::Integer
    } else if str_eq(s.as_str(), "float") {
        LogValueType::Float
    } else if str_eq(s.as_str(), "second") {
        LogValueType::Second
    } else {
        LogValueType::Unspecified
    }
}

fn op_from(s: &String) -> (r: OpType)
    ensures
        r == op_of(s@),
{
    if str_eq(s.as_str(), "count") {
        OpType::Count
    } else {
        OpType::Average
    }
}

/// Builds the table schema from a configuration, or rejects it: first for an
/// `order_by` that names no field, then for an `order` other than `asc` or
/// `desc` (in any ASCII case). The key is read as a string.
pub fn build_table_def(config: &Config) -> (r: Result<TableDef, ConfigError>)
    ensures
        match r {
            Ok(def) => {
                &&& config.order_by matches Some(o) ==> names_field(config.fields@, o@)
                &&& order_ok(config.order)
                &&& def.wf()
                &&& def.index.accessor.name@ == config.index.name@
                &&& strs(def.index.accessor.path@) == split_on(config.index.accessor@, '.')
                &&& def.index.accessor.dtype == LogValueType::String
                &&& def.fields@.len() == config.fields@.len()
                &&& forall|i: int|
                    0 <= i < def.fields@.len() ==> column_of(
                        #[trigger] def.fields@[i],
                        config.fields@[i],
                    )
                &&& match config.order_by {
                    Some(o) => def.order_by matches Some(f) && f.accessor.name@ == o@,
                    None => def.order_by is None,
                }
                &&& def.ascending == ascending_of(config.order)
            },
            Err(ConfigError::InvalidOrderBy) => config.order_by matches Some(o) && !names_field(
                config.fields@,
                o@,
            ),
            Err(ConfigError::InvalidOrder) => {
                &&& config.order_by matches Some(o) ==> names_field(config.fields@, o@)
                &&& !order_ok(config.order)
            },
        },
{
    let index = TableIndex::new(
        Accessor::from_string(
            config.index.name.as_str(),
            config.index.accessor.as_str(),
            LogValueType::String,
        ),
    );
    let mut fields: Vec<TableField> = Vec::new();
    let mut i: usize = 0;
    while i < config.fields.len()
        invariant
            i <= config.fields@.len(),
            fields@.len() == i,
            forall|k: int| 0 <= k < i ==> column_of(#[trigger] fields@[k], config.fields@[k]),
        decreases config.fields@.len() - i,
    {
        let c = &config.fields[i];
        let dtype = dtype_from(&c.dtype);
        let accessor = Accessor::from_string(c.name.as_str(), c.accessor.as_str(), dtype);
        fields.push(TableField::new(accessor, op_from(&c.operation)));
        i = i + 1;
    }
    let mut order_by: Option<TableField> = None;
    match &config.order_by {
        Some(o) => {
            let mut j: usize = 0;
            let mut hit = false;
            while j < fields.len() && !hit
                invariant
                    j <= fields@.len(),
                    fields@.len() == config.fields@.len(),
                    forall|k: int|
                        0 <= k < fields@.len() ==> column_of(
                            #[trigger] fields@[k],
                            config.fields@[k],
                        ),
                    hit ==> j < fields@.len() && fields@[j as int].accessor.name@ == o@,
                    forall|k: int| 0 <= k < j ==> (#[trigger] fields@[k]).accessor.name@ != o@,
                decreases fields@.len() - j + if hit { 0int } else { 1int },
            {
                if fields[j].accessor.name.eq(o) {
                    hit = true;
                } else {
                    j = j + 1;
                }
            }
            if hit {
                order_by = Some(fields[j].copied());
            }
            match &order_by {
                Some(f) => {
                    proof {
                        assert(has_field(fields@, f.accessor.name@));
                        assert(names_field(config.fields@, o@)) by {
                            assert(config.fields@[j as int].name@ == o@);
                        }
                    }
                },
                None => {
                    proof {
                        assert forall|k: int| 0 <= k < config.fields@.len() implies (
                        #[trigger] config.fields@[k]).name@ != o@ by {
                            assert(fields@[k].accessor.name@ != o@);
                        }
                    }
                    return Err(ConfigError::InvalidOrderBy);
                },
            }
        },
        None => {},
    }
    let mut ascending = true;
    match &config.order {
        Some(o) => {
            proof {
                reveal_strlit("asc");
                reveal_strlit("desc");
            }
            if str_eq_ignore_case(o.as_str(), "asc") {
                ascending = true;
            } else if str_eq_ignore_case(o.as_str(), "desc") {
                ascending = false;
            } else {
                return Err(ConfigError::InvalidOrder);
            }
        },
        None => {},
    }
    Ok(TableDef::new(index, fields, order_by, ascending))
}

} // verus!
