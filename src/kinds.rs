use vstd::prelude::*;

verus! {

/// How the bytes at a candidate address are read.
#[derive(Clone, Copy, Debug, PartialEq, Eq, Structural)]
pub enum DataType {
    Int8,
    Uint8,
    Int16,
    Uint16,
    Int32,
    Uint32,
    Int64,
    Uint64,
    Float,
    Double,
    Utf8,
    Utf16,
    Aob,
    Regex,
}

/// How a scan starts: from a pattern, or from a snapshot of every value.
#[derive(Clone, Copy, Debug, PartialEq, Eq, Structural)]
pub enum FindType {
    Exact,
    Unknown,
}

/// The comparison a filter pass applies to each candidate.
#[derive(Clone, Copy, Debug, PartialEq, Eq, Structural)]
pub enum FilterMethod {
    Exact,
    Changed,
    Unchanged,
    Increased,
    Decreased,
}

/// Width in bytes of a numeric type; 1 for the types of variable width.
pub open spec fn spec_width(t: DataType) -> nat {
    match t {
        DataType::Int16 | DataType::Uint16 => 2,
        DataType::Int32 | DataType::Uint32 | DataType::Float => 4,
        DataType::Int64 | DataType::Uint64 | DataType::Double => 8,
        _ => 1,
    }
}

pub open spec fn spec_is_numeric(t: DataType) -> bool {
    match t {
        DataType::Utf8 | DataType::Utf16 | DataType::Aob | DataType::Regex => false,
        _ => true,
    }
}

pub open spec fn spec_is_float(t: DataType) -> bool {
    t == DataType::Float || t == DataType::Double
}

pub open spec fn spec_is_signed(t: DataType) -> bool {
    match t {
        DataType::Int8 | DataType::Int16 | DataType::Int32 | DataType::Int64 => true,
        _ => false,
    }
}

/// The name of each data type as a client writes it.
pub open spec fn data_type_name(t: DataType) -> Seq<char> {
    match t {
        DataType::Int8 => "int8"@,
        DataType::Uint8 => "uint8"@,
        DataType::Int16 => "int16"@,
        DataType::Uint16 => "uint16"@,
        DataType::Int32 => "int32"@,
        DataType::Uint32 => "uint32"@,
        DataType::Int64 => "int64"@,
        DataType::Uint64 => "uint64"@,
        DataType::Float => "float"@,
        DataType::Double => "double"@,
        DataType::Utf8 => "utf-8"@,
        DataType::Utf16 => "utf-16"@,
        DataType::Aob => "aob"@,
        DataType::Regex => "regex"@,
    }
}

pub open spec fn find_type_name(t: FindType) -> Seq<char> {
    match t {
        FindType::Exact => "exact"@,
        FindType::Unknown => "unknown"@,
    }
}

pub open spec fn filter_method_name(m: FilterMethod) -> Seq<char> {
    match m {
        FilterMethod::Exact => "exact"@,
        FilterMethod::Changed => "changed"@,
        FilterMethod::Unchanged => "unchanged"@,
        FilterMethod::Increased => "increased"@,
        FilterMethod::Decreased => "decreased"@,
    }
}

/// Whether two texts hold the same characters.
pub fn same_text(a: &str, b: &str) -> (r: bool)
    ensures
        r == (a@ == b@),
{
    let n = a.unicode_len();
    if n != b.unicode_len() {
        return false;
    }
    let mut i: usize = 0;
    while i < n
        invariant
            n == a@.len(),
            n == b@.len(),
            i <= n,
            forall|j: int| 0 <= j < i ==> a@[j] == b@[j],
        decreases n - i,
    {
        if a.get_char(i) != b.get_char(i) {
            return false;
        }
        i += 1;
    }
    assert(a@ =~= b@);
    true
}

impl DataType {
    /// Width in bytes of a numeric type; 1 for the types of variable width.
    pub fn width(&self) -> (r: usize)
        ensures
            r == spec_width(*self),
    {
        match self {
            DataType::Int16 | DataType::Uint16 => 2,
            DataType::Int32 | DataType::Uint32 | DataType::Float => 4,
            DataType::Int64 | DataType::Uint64 | DataType::Double => 8,
            _ => 1,
        }
    }

    /// The data type of the given name, if there is one.
    pub fn from_name(name: &str) -> (r: Option<DataType>)
        ensures
            r.is_none() ==> forall|t: DataType| data_type_name(t) != name@,
            r.is_some() ==> data_type_name(r.unwrap()) == name@,
    {
        proof {
            reveal_strlit("int8");
            reveal_strlit("uint8");
            reveal_strlit("int16");
            reveal_strlit("uint16");
            reveal_strlit("int32");
            reveal_strlit("uint32");
            reveal_strlit("int64");
            reveal_strlit("uint64");
            reveal_strlit("float");
            reveal_strlit("double");
            reveal_strlit("utf-8");
            reveal_strlit("utf-16");
            reveal_strlit("aob");
            reveal_strlit("regex");
        }
        let r = if same_text(name, "int8") {
            Some(DataType::Int8)
        } else if same_text(name, "uint8") {
            Some(DataType::Uint8)
        } else if same_text(name, "int16") {
            Some(DataType::Int16)
        } else if same_text(name, "uint16") {
            Some(DataType::Uint16)
        } else if same_text(name, "int32") {
            Some(DataType::Int32)
        } else if same_text(name, "uint32") {
            Some(DataType::Uint32)
        } else if same_text(name, "int64") {
            Some(DataType::Int64)
        } else if same_text(name, "uint64") {
            Some(DataType::Uint64)
        } else if same_text(name, "float") {
            Some(DataType::Float)
        } else if same_text(name, "double") {
            Some(DataType::Double)
        } else if same_text(name, "utf-8") {
            Some(DataType::Utf8)
        } else if same_text(name, "utf-16") {
            Some(DataType::Utf16)
        } else if same_text(name, "aob") {
            Some(DataType::Aob)
        } else if same_text(name, "regex") {
            Some(DataType::Regex)
        } else {
            None
        };
        proof {
            if r.is_none() {
                assert forall|t: DataType| data_type_name(t) != name@ by {
                    match t {
                        DataType::Int8 => {},
                        _ => {},
                    }
                }
            }
        }
        r
    }
}

impl FindType {
    /// The find type of the given name, if there is one.
    pub fn from_name(name: &str) -> (r: Option<FindType>)
        ensures
            r.is_none() ==> forall|t: FindType| find_type_name(t) != name@,
            r.is_some() ==> find_type_name(r.unwrap()) == name@,
    {
        proof {
            reveal_strlit("exact");
            reveal_strlit("unknown");
        }
        if same_text(name, "exact") {
            Some(FindType::Exact)
        } else if same_text(name, "unknown") {
            Some(FindType::Unknown)
        } else {
            proof {
                assert forall|t: FindType| find_type_name(t) != name@ by {
                    match t {
                        FindType::Exact => {},
                        FindType::Unknown => {},
                    }
                }
            }
            None
        }
    }
}

impl FilterMethod {
    /// The filter method of the given name, if there is one.
    pub fn from_name(name: &str) -> (r: Option<FilterMethod>)
        ensures
            r.is_none() ==> forall|m: FilterMethod| filter_method_name(m) != name@,
            r.is_some() ==> filter_method_name(r.unwrap()) == name@,
    {
        proof {
            reveal_strlit("exact");
            reveal_strlit("changed");
            reveal_strlit("unchanged");
            reveal_strlit("increased");
            reveal_strlit("decreased");
        }
        let r = if same_text(name, "exact") {
            Some(FilterMethod::Exact)
        } else if same_text(name, "changed") {
            Some(FilterMethod::Changed)
        } else if same_text(name, "unchanged") {
            Some(FilterMethod::Unchanged)
        } else if same_text(name, "increased") {
            Some(FilterMethod::Increased)
        } else if same_text(name, "decreased") {
            Some(FilterMethod::Decreased)
        } else {
            None
        };
        proof {
            if r.is_none() {
                assert forall|m: FilterMethod| filter_method_name(m) != name@ by {
                    match m {
                        FilterMethod::Exact => {},
                        _ => {},
                    }
                }
            }
        }
        r
    }
}

} // verus!
