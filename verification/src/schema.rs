//! Schema validation of configuration values.
pub mod suggest;

use vstd::prelude::*;
use crate::value::{Node, Shape, Value, ValueKind, ObjectMap, find_key, keys_of, shape_type_name, lemma_find_key, lemma_entries_model, lemma_values_model, value_model};
use crate::schema::suggest::{best_match, find_best_match};
use crate::text::{nat_text, push_usize, str_eq};

verus! {

broadcast use crate::value::lemma_entry_seq;

/// How serious a finding is.
#[derive(Debug, Clone, Copy, PartialEq, Eq, Structural)]
pub enum ValidationLevel {
    Error,
    Warning,
}

/// One finding of a validation: its level, where it is, and what it says.
#[derive(Debug, Clone, PartialEq)]
pub struct ValidationItem {
    pub level: ValidationLevel,
    pub path: String,
    pub message: String,
}

/// "[Level at path] message".
pub open spec fn item_text(level: ValidationLevel, path: Seq<char>, message: Seq<char>) -> Seq<char> {
    "["@ + (match level {
        ValidationLevel::Error => "Error"@,
        ValidationLevel::Warning => "Warning"@,
    }) + " at "@ + path + "] "@ + message
}

impl ValidationItem {
    /// The finding as displayed: "[Level at path] message".
    pub fn to_string(&self) -> (s: String)
        ensures
            s@ == item_text(self.level, self.path@, self.message@),
    {
        let mut s = String::from_str("[");
        match self.level {
            ValidationLevel::Error => s.append("Error"),
            ValidationLevel::Warning => s.append("Warning"),
        }
        s.append(" at ");
        s.append(self.path.as_str());
        s.append("] ");
        s.append(self.message.as_str());
        s
    }
}

/// Mathematical model of a finding.
pub struct Finding {
    pub level: ValidationLevel,
    pub path: Seq<char>,
    pub message: Seq<char>,
}

pub open spec fn item_model(i: ValidationItem) -> Finding {
    Finding { level: i.level, path: i.path@, message: i.message@ }
}

pub open spec fn items_model(s: Seq<ValidationItem>) -> Seq<Finding> {
    s.map_values(|i: ValidationItem| item_model(i))
}

pub open spec fn error_at(path: Seq<char>, message: Seq<char>) -> Finding {
    Finding { level: ValidationLevel::Error, path, message }
}

/// Whether `schema` uses the extended form `{ type: "<name>", ... }`.
pub open spec fn is_extended(schema: Node) -> bool {
    match schema.shape {
        Shape::Object(es) => match find_key(es, "type"@) {
            Some(i) => es[i].1.shape is Str,
            None => false,
        },
        _ => false,
    }
}

/// The schema that describes the value's type: the `type` entry of an
/// extended schema, or else the schema itself.
pub open spec fn meta_effective(schema: Node) -> Node {
    if is_extended(schema) {
        let es = schema.shape->Object_0;
        es[find_key(es, "type"@)->Some_0].1
    } else {
        schema
    }
}

/// The deprecation message of an extended schema, if it gives one as a string.
pub open spec fn meta_deprecated(schema: Node) -> Option<Seq<char>> {
    if is_extended(schema) {
        let es = schema.shape->Object_0;
        match find_key(es, "deprecated"@) {
            Some(j) => match es[j].1.shape {
                Shape::Str(m) => Some(m),
                _ => None,
            },
            None => None,
        }
    } else {
        None
    }
}

/// Whether an extended schema marks the field optional (`optional: true`).
pub open spec fn meta_optional(schema: Node) -> bool {
    if is_extended(schema) {
        let es = schema.shape->Object_0;
        match find_key(es, "optional"@) {
            Some(j) => match es[j].1.shape {
                Shape::Bool(b) => b,
                _ => false,
            },
            None => false,
        }
    } else {
        false
    }
}

/// Whether a value of shape `s` has the named type; `None` for an unknown name.
pub open spec fn type_matches(s: Shape, t: Seq<char>) -> Option<bool> {
    if t == "any"@ {
        Some(true)
    } else if t == "string"@ {
        Some(s is Str)
    } else if t == "integer"@ {
        Some(s is Integer)
    } else if t == "float"@ {
        Some(s is Float)
    } else if t == "boolean"@ || t == "bool"@ {
        Some(s is Bool)
    } else if t == "null"@ {
        Some(s is Null)
    } else if t == "number"@ {
        Some(s is Integer || s is Float)
    } else {
        None
    }
}

/// Checking a value against a type name.
pub open spec fn check_type(inst: Node, t: Seq<char>, path: Seq<char>, report: Seq<Finding>) -> Result<
    Seq<Finding>,
    Finding,
> {
    match type_matches(inst.shape, t) {
        None => Err(error_at(path, "Unknown type '"@ + t + "'"@)),
        Some(true) => Ok(report),
        Some(false) => Ok(
            report.push(
                error_at(
                    path,
                    "Type mismatch: expected "@ + t + ", found "@ + shape_type_name(inst.shape),
                ),
            ),
        ),
    }
}

/// The suggestion appended to an unknown field's message.
pub open spec fn suggestion(key: Seq<char>, keys: Seq<Seq<char>>) -> Seq<char> {
    match best_match(key, keys, 2) {
        Some(b) => "; did you mean '"@ + b + "'?"@,
        None => Seq::empty(),
    }
}

/// Validating a value against a schema at `path`, adding to `report`; an
/// `Err` is a schema that cannot be used.
pub open spec fn validate_node(inst: Node, schema: Node, path: Seq<char>, report: Seq<Finding>) -> Result<
    Seq<Finding>,
    Finding,
>
    decreases schema, 0int,
{
    let report1 = match meta_deprecated(schema) {
        Some(m) => report.push(
            Finding { level: ValidationLevel::Warning, path, message: "Deprecated usage: "@ + m },
        ),
        None => report,
    };
    match meta_effective(schema).shape {
        Shape::Str(t) => check_type(inst, t, path, report1),
        _ => match schema.shape {
            Shape::Object(ses) => match inst.shape {
                Shape::Object(ies) => match check_fields(ies, ses, ses.len() as int, path, report1) {
                    Err(e) => Err(e),
                    Ok(r2) => Ok(unknown_fields(ies, ses, ies.len() as int, path, r2)),
                },
                _ => Ok(
                    report1.push(
                        error_at(path, "Expected object, found "@ + shape_type_name(inst.shape)),
                    ),
                ),
            },
            Shape::Array(sarr) => if sarr.len() != 1 {
                Err(error_at(path, "Array schema must contain exactly one element specifier"@))
            } else {
                match inst.shape {
                    Shape::Array(items) => check_items(items, sarr[0], items.len() as int, path, report1),
                    _ => Ok(
                        report1.push(
                            error_at(path, "Expected array, found "@ + shape_type_name(inst.shape)),
                        ),
                    ),
                }
            },
            _ => Err(error_at(path, "Unsupported schema value type: "@ + shape_type_name(schema.shape))),
        },
    }
}

/// Checking the first `k` fields of an object schema: each field must be
/// present (unless optional) and valid.
pub open spec fn check_fields(
    ies: Seq<(Seq<char>, Node)>,
    ses: Seq<(Seq<char>, Node)>,
    k: int,
    path: Seq<char>,
    report: Seq<Finding>,
) -> Result<Seq<Finding>, Finding>
    decreases ses, k,
{
    if k <= 0 || k > ses.len() {
        Ok(report)
    } else {
        match check_fields(ies, ses, k - 1, path, report) {
            Err(e) => Err(e),
            Ok(r) => {
                let key = ses[k - 1].0;
                let sub = ses[k - 1].1;
                match find_key(ies, key) {
                    None => if meta_optional(sub) {
                        Ok(r)
                    } else {
                        Ok(r.push(error_at(path, "Missing required field '"@ + key + "'"@)))
                    },
                    Some(i) => validate_node(ies[i].1, sub, path + "."@ + key, r),
                }
            },
        }
    }
}

/// Checking the first `k` items of an array against the item schema.
pub open spec fn check_items(items: Seq<Node>, item_schema: Node, k: int, path: Seq<char>, report: Seq<Finding>) -> Result<
    Seq<Finding>,
    Finding,
>
    decreases item_schema, k,
{
    if k <= 0 || k > items.len() {
        Ok(report)
    } else {
        match check_items(items, item_schema, k - 1, path, report) {
            Err(e) => Err(e),
            Ok(r) => validate_node(items[k - 1], item_schema, path + "["@ + nat_text((k - 1) as nat) + "]"@, r),
        }
    }
}

/// Reporting the first `k` fields of an instance that the schema does not
/// name, with a suggestion of a near schema key.
pub open spec fn unknown_fields(
    ies: Seq<(Seq<char>, Node)>,
    ses: Seq<(Seq<char>, Node)>,
    k: int,
    path: Seq<char>,
    report: Seq<Finding>,
) -> Seq<Finding>
    decreases k,
{
    if k <= 0 || k > ies.len() {
        report
    } else {
        let r = unknown_fields(ies, ses, k - 1, path, report);
        let key = ies[k - 1].0;
        if find_key(ses, key) is Some {
            r
        } else {
            r.push(error_at(path, "Unknown field '"@ + key + "'"@ + suggestion(key, keys_of(ses))))
        }
    }
}

/// The report as it stands when validation meets a schema that cannot be
/// used: the findings made before that point, in order.
pub open spec fn report_at_error(inst: Node, schema: Node, path: Seq<char>, report: Seq<Finding>) -> Seq<
    Finding,
>
    decreases schema, 0int,
{
    let report1 = match meta_deprecated(schema) {
        Some(m) => report.push(
            Finding { level: ValidationLevel::Warning, path, message: "Deprecated usage: "@ + m },
        ),
        None => report,
    };
    match meta_effective(schema).shape {
        Shape::Str(_) => report1,
        _ => match schema.shape {
            Shape::Object(ses) => match inst.shape {
                Shape::Object(ies) => fields_report_at_error(ies, ses, ses.len() as int, path, report1),
                _ => report1,
            },
            Shape::Array(sarr) => if sarr.len() != 1 {
                report1
            } else {
                match inst.shape {
                    Shape::Array(items) => items_report_at_error(
                        items,
                        sarr[0],
                        items.len() as int,
                        path,
                        report1,
                    ),
                    _ => report1,
                }
            },
            _ => report1,
        },
    }
}

/// The report as it stands when checking the first `k` fields meets a
/// schema that cannot be used.
pub open spec fn fields_report_at_error(
    ies: Seq<(Seq<char>, Node)>,
    ses: Seq<(Seq<char>, Node)>,
    k: int,
    path: Seq<char>,
    report: Seq<Finding>,
) -> Seq<Finding>
    decreases ses, k,
{
    if k <= 0 || k > ses.len() {
        report
    } else {
        match check_fields(ies, ses, k - 1, path, report) {
            Err(_) => fields_report_at_error(ies, ses, k - 1, path, report),
            Ok(r) => {
                let key = ses[k - 1].0;
                match find_key(ies, key) {
                    None => r,
                    Some(i) => report_at_error(ies[i].1, ses[k - 1].1, path + "."@ + key, r),
                }
            },
        }
    }
}

/// The report as it stands when checking the first `k` items meets a
/// schema that cannot be used.
pub open spec fn items_report_at_error(
    items: Seq<Node>,
    item_schema: Node,
    k: int,
    path: Seq<char>,
    report: Seq<Finding>,
) -> Seq<Finding>
    decreases item_schema, k,
{
    if k <= 0 || k > items.len() {
        report
    } else {
        match check_items(items, item_schema, k - 1, path, report) {
            Err(_) => items_report_at_error(items, item_schema, k - 1, path, report),
            Ok(r) => report_at_error(
                items[k - 1],
                item_schema,
                path + "["@ + nat_text((k - 1) as nat) + "]"@,
                r,
            ),
        }
    }
}

/// The whole validation of `inst` against `schema`, from the root path `$`.
pub open spec fn validation(inst: Node, schema: Node) -> Result<Seq<Finding>, Finding> {
    validate_node(inst, schema, "$"@, Seq::empty())
}

} // verus!

verus! {

pub proof fn lemma_check_fields_err(
    ies: Seq<(Seq<char>, Node)>,
    ses: Seq<(Seq<char>, Node)>,
    k: int,
    n: int,
    path: Seq<char>,
    report: Seq<Finding>,
)
    requires
        0 <= k <= n <= ses.len(),
        check_fields(ies, ses, k, path, report) is Err,
    ensures
        check_fields(ies, ses, n, path, report) == check_fields(ies, ses, k, path, report),
    decreases n - k,
{
    if k < n {
        lemma_check_fields_err(ies, ses, k, n - 1, path, report);
    }
}

pub proof fn lemma_fields_report_at_error(
    ies: Seq<(Seq<char>, Node)>,
    ses: Seq<(Seq<char>, Node)>,
    k: int,
    n: int,
    path: Seq<char>,
    report: Seq<Finding>,
)
    requires
        0 <= k <= n <= ses.len(),
        check_fields(ies, ses, k, path, report) is Err,
    ensures
        fields_report_at_error(ies, ses, n, path, report) == fields_report_at_error(ies, ses, k, path, report),
    decreases n - k,
{
    if k < n {
        lemma_check_fields_err(ies, ses, k, n - 1, path, report);
        lemma_fields_report_at_error(ies, ses, k, n - 1, path, report);
    }
}

pub proof fn lemma_items_report_at_error(
    items: Seq<Node>,
    item_schema: Node,
    k: int,
    n: int,
    path: Seq<char>,
    report: Seq<Finding>,
)
    requires
        0 <= k <= n <= items.len(),
        check_items(items, item_schema, k, path, report) is Err,
    ensures
        items_report_at_error(items, item_schema, n, path, report) == items_report_at_error(
            items,
            item_schema,
            k,
            path,
            report,
        ),
    decreases n - k,
{
    if k < n {
        lemma_check_items_err(items, item_schema, k, n - 1, path, report);
        lemma_items_report_at_error(items, item_schema, k, n - 1, path, report);
    }
}

pub proof fn lemma_check_items_err(
    items: Seq<Node>,
    item_schema: Node,
    k: int,
    n: int,
    path: Seq<char>,
    report: Seq<Finding>,
)
    requires
        0 <= k <= n <= items.len(),
        check_items(items, item_schema, k, path, report) is Err,
    ensures
        check_items(items, item_schema, n, path, report) == check_items(items, item_schema, k, path, report),
    decreases n - k,
{
    if k < n {
        lemma_check_items_err(items, item_schema, k, n - 1, path, report);
    }
}

/// Append a finding to the report.
fn push_item(report: &mut Vec<ValidationItem>, level: ValidationLevel, path: &str, message: String)
    ensures
        items_model(final(report)@) == items_model(old(report)@).push(
            Finding { level, path: path@, message: message@ },
        ),
{
    let item = ValidationItem { level, path: String::from_str(path), message };
    report.push(item);
    assert(items_model(report@) =~= items_model(old(report)@).push(
        Finding { level, path: path@, message: message@ },
    ));
}

/// A string holding the concatenation of three parts.
fn join3(a: &str, b: &str, c: &str) -> (s: String)
    ensures
        s@ == a@ + b@ + c@,
{
    let mut s = String::from_str(a);
    s.append(b);
    s.append(c);
    s
}

/// Split an extended schema `{ type: "<name>", deprecated: "...", optional: true }`
/// into the type schema, the deprecation message and the optional flag.
fn extract_metadata(schema: &Value) -> (r: (&Value, Option<String>, bool))
    ensures
        r.0@ == meta_effective(schema@),
        match meta_deprecated(schema@) {
            Some(m) => r.1 matches Some(s) && s@ == m,
            None => r.1 is None,
        },
        r.2 == meta_optional(schema@),
{
    if let ValueKind::Object(schema_obj) = &schema.kind {
        proof {
            lemma_find_key(schema_obj@, "type"@);
        }
        if let Some(type_val) = schema_obj.get("type") {
            if let ValueKind::String(_) = type_val.kind {
                let deprecated_msg = if let Some(dep_val) = schema_obj.get("deprecated") {
                    if let ValueKind::String(msg) = &dep_val.kind {
                        Some(msg.clone())
                    } else {
                        None
                    }
                } else {
                    None
                };
                let optional = if let Some(opt_val) = schema_obj.get("optional") {
                    if let ValueKind::Bool(b) = &opt_val.kind {
                        *b
                    } else {
                        false
                    }
                } else {
                    false
                };
                return (type_val, deprecated_msg, optional);
            }
        }
    }
    (schema, None, false)
}

/// Check `instance` against the type named `type_label`.
fn validate_type(instance: &Value, type_label: &str, path: &str, report: &mut Vec<ValidationItem>) -> (r:
    Result<(), ValidationItem>)
    ensures
        match check_type(instance@, type_label@, path@, items_model(old(report)@)) {
            Ok(rep) => r is Ok && items_model(final(report)@) == rep,
            Err(f) => r matches Err(e) && item_model(e) == f && final(report)@ == old(report)@,
        },
{
    let is_valid = if str_eq(type_label, "any") {
        true
    } else if str_eq(type_label, "string") {
        matches!(instance.kind, ValueKind::String(_))
    } else if str_eq(type_label, "integer") {
        matches!(instance.kind, ValueKind::Integer(_))
    } else if str_eq(type_label, "float") {
        matches!(instance.kind, ValueKind::Float(_))
    } else if str_eq(type_label, "boolean") || str_eq(type_label, "bool") {
        matches!(instance.kind, ValueKind::Bool(_))
    } else if str_eq(type_label, "null") {
        matches!(instance.kind, ValueKind::Null)
    } else if str_eq(type_label, "number") {
        matches!(instance.kind, ValueKind::Integer(_) | ValueKind::Float(_))
    } else {
        return Err(
            ValidationItem {
                level: ValidationLevel::Error,
                path: String::from_str(path),
                message: join3("Unknown type '", type_label, "'"),
            },
        );
    };
    if !is_valid {
        let mut msg = join3("Type mismatch: expected ", type_label, ", found ");
        msg.append(instance.kind_name());
        push_item(report, ValidationLevel::Error, path, msg);
    }
    Ok(())
}

} // verus!

verus! {

/// The keys of an object, as owned strings.
fn key_strings(obj: &ObjectMap) -> (ks: Vec<String>)
    ensures
        crate::value::strings_model(ks@) == keys_of(obj@),
{
    proof {
        lemma_entries_model(obj.entries@);
    }
    let mut ks: Vec<String> = Vec::new();
    let mut i: usize = 0;
    while i < obj.entries.len()
        invariant
            0 <= i <= obj.entries@.len(),
            obj@.len() == obj.entries@.len(),
            forall|j: int|
                0 <= j < obj.entries@.len() ==> #[trigger] obj@[j] == (
                    obj.entries@[j].0@,
                    value_model(obj.entries@[j].1),
                ),
            crate::value::strings_model(ks@) == keys_of(obj@).take(i as int),
            ks@.len() == i,
        decreases obj.entries@.len() - i,
    {
        let ghost before = ks@;
        ks.push(obj.entries[i].0.clone());
        assert forall|j: int| 0 <= j < i + 1 implies #[trigger] crate::value::strings_model(ks@)[j]
            == keys_of(obj@).take(i + 1)[j] by {
            if j < i {
                assert(ks@[j] == before[j]);
                assert(crate::value::strings_model(before)[j] == keys_of(obj@).take(i as int)[j]);
            }
        }
        assert(crate::value::strings_model(ks@) =~= keys_of(obj@).take(i + 1));
        i = i + 1;
    }
    assert(keys_of(obj@).take(obj@.len() as int) =~= keys_of(obj@));
    ks
}

/// Validate `instance` against `schema` at `path`, adding findings to `report`.
fn validate_recursive(instance: &Value, schema: &Value, path: &str, report: &mut Vec<ValidationItem>) -> (r:
    Result<(), ValidationItem>)
    ensures
        match validate_node(instance@, schema@, path@, items_model(old(report)@)) {
            Ok(rep) => r is Ok && items_model(final(report)@) == rep,
            Err(f) => r matches Err(e) && item_model(e) == f && items_model(final(report)@)
                == report_at_error(instance@, schema@, path@, items_model(old(report)@)),
        },
    decreases schema@,
{
    let (effective, deprecation, _) = extract_metadata(schema);
    if let Some(msg) = deprecation {
        let mut m = String::from_str("Deprecated usage: ");
        m.append(msg.as_str());
        push_item(report, ValidationLevel::Warning, path, m);
    }
    let ghost report1 = items_model(report@);
    match &effective.kind {
        ValueKind::String(t) => validate_type(instance, t.as_str(), path, report),
        ValueKind::Object(schema_obj) => {
            assert(!is_extended(schema@));
            assert(effective@ == schema@);
            let ghost ses = schema_obj@;
            if let ValueKind::Object(instance_obj) = &instance.kind {
                let ghost ies = instance_obj@;
                proof {
                    lemma_entries_model(schema_obj.entries@);
                    lemma_entries_model(instance_obj.entries@);
                }
                let n = schema_obj.entries.len();
                let mut i: usize = 0;
                let ghost whole = validate_node(instance@, schema@, path@, items_model(old(report)@));
                assert(whole == match check_fields(ies, ses, ses.len() as int, path@, report1) {
                    Err(e) => Err(e),
                    Ok(r2) => Ok(unknown_fields(ies, ses, ies.len() as int, path@, r2)),
                });
                assert(report_at_error(instance@, schema@, path@, items_model(old(report)@))
                    == fields_report_at_error(ies, ses, ses.len() as int, path@, report1));
                while i < n
                    invariant
                        report_at_error(instance@, schema@, path@, items_model(old(report)@))
                            == fields_report_at_error(ies, ses, ses.len() as int, path@, report1),
                        whole == validate_node(instance@, schema@, path@, items_model(old(report)@)),
                        whole == match check_fields(ies, ses, ses.len() as int, path@, report1) {
                            Err(e) => Err(e),
                            Ok(r2) => Ok(unknown_fields(ies, ses, ies.len() as int, path@, r2)),
                        },
                        n == ses.len() == schema_obj.entries@.len(),
                        ses == schema_obj@,
                        ies == instance_obj@,
                        schema@.shape == Shape::Object(ses),
                        forall|j: int|
                            0 <= j < n ==> #[trigger] ses[j] == (
                                schema_obj.entries@[j].0@,
                                value_model(schema_obj.entries@[j].1),
                            ),
                        0 <= i <= n,
                        check_fields(ies, ses, i as int, path@, report1) == Ok::<
                            Seq<Finding>,
                            Finding,
                        >(items_model(report@)),
                    decreases n - i,
                {
                    let key = &schema_obj.entries[i].0;
                    let sub_schema = &schema_obj.entries[i].1;
                    proof {
                        lemma_find_key(ies, key@);
                    }
                    let ghost before = items_model(report@);
                    match instance_obj.get(key.as_str()) {
                        None => {
                            let (_, _, is_optional) = extract_metadata(sub_schema);
                            if !is_optional {
                                let m = join3("Missing required field '", key.as_str(), "'");
                                push_item(report, ValidationLevel::Error, path, m);
                            }
                        },
                        Some(iv) => {
                            let sub_path = join3(path, ".", key.as_str());
                            assert(decreases_to!(schema@ => ses[i as int].1)) by {
                                assert(decreases_to!(schema@ => schema@.shape));
                                assert(decreases_to!(schema@.shape => ses));
                                assert(decreases_to!(ses => ses[i as int]));
                            }
                            match validate_recursive(iv, sub_schema, sub_path.as_str(), report) {
                                Ok(()) => {},
                                Err(e) => {
                                    proof {
                                        assert(ses[i as int].0 == key@);
                                        assert(ses[i as int].1 == sub_schema@);
                                        assert(check_fields(ies, ses, i + 1, path@, report1) == Err::<
                                            Seq<Finding>,
                                            Finding,
                                        >(item_model(e)));
                                        lemma_check_fields_err(ies, ses, i + 1, n as int, path@, report1);
                                        assert(fields_report_at_error(ies, ses, i + 1, path@, report1)
                                            == items_model(report@));
                                        lemma_fields_report_at_error(ies, ses, i + 1, n as int, path@, report1);
                                    }
                                    return Err(e);
                                },
                            }
                        },
                    }
                    i = i + 1;
                }
                let schema_keys = key_strings(schema_obj);
                let m = instance_obj.entries.len();
                let mut j: usize = 0;
                let ghost r2 = items_model(report@);
                while j < m
                    invariant
                        m == ies.len() == instance_obj.entries@.len(),
                        ies == instance_obj@,
                        ses == schema_obj@,
                        crate::value::strings_model(schema_keys@) == keys_of(ses),
                        forall|k: int|
                            0 <= k < m ==> #[trigger] ies[k] == (
                                instance_obj.entries@[k].0@,
                                value_model(instance_obj.entries@[k].1),
                            ),
                        0 <= j <= m,
                        items_model(report@) == unknown_fields(ies, ses, j as int, path@, r2),
                    decreases m - j,
                {
                    let key = &instance_obj.entries[j].0;
                    if !schema_obj.contains_key(key.as_str()) {
                        let mut msg = join3("Unknown field '", key.as_str(), "'");
                        match find_best_match(key.as_str(), schema_keys.as_slice(), 2) {
                            Some(best) => {
                                let s = join3("; did you mean '", best.as_str(), "'?");
                                msg.append(s.as_str());
                            },
                            None => {
                                assert(msg@ =~= msg@ + Seq::<char>::empty());
                            },
                        }
                        push_item(report, ValidationLevel::Error, path, msg);
                    }
                    j = j + 1;
                }
                Ok(())
            } else {
                let mut msg = String::from_str("Expected object, found ");
                msg.append(instance.kind_name());
                push_item(report, ValidationLevel::Error, path, msg);
                Ok(())
            }
        },
        ValueKind::Array(schema_arr) => {
            assert(!is_extended(schema@));
            assert(effective@ == schema@);
            proof {
                lemma_values_model(schema_arr@);
            }
            if schema_arr.len() != 1 {
                return Err(
                    ValidationItem {
                        level: ValidationLevel::Error,
                        path: String::from_str(path),
                        message: String::from_str(
                            "Array schema must contain exactly one element specifier",
                        ),
                    },
                );
            }
            let item_schema = &schema_arr[0];
            let ghost sarr = crate::value::values_model(schema_arr@);
            if let ValueKind::Array(instance_arr) = &instance.kind {
                let ghost items = crate::value::values_model(instance_arr@);
                proof {
                    lemma_values_model(instance_arr@);
                }
                let n = instance_arr.len();
                let mut i: usize = 0;
                let ghost whole = validate_node(instance@, schema@, path@, items_model(old(report)@));
                assert(whole == check_items(items, sarr[0], items.len() as int, path@, report1));
                assert(report_at_error(instance@, schema@, path@, items_model(old(report)@))
                    == items_report_at_error(items, sarr[0], items.len() as int, path@, report1));
                while i < n
                    invariant
                        report_at_error(instance@, schema@, path@, items_model(old(report)@))
                            == items_report_at_error(items, sarr[0], items.len() as int, path@, report1),
                        whole == validate_node(instance@, schema@, path@, items_model(old(report)@)),
                        whole == check_items(items, sarr[0], items.len() as int, path@, report1),
                        n == items.len() == instance_arr@.len(),
                        items == crate::value::values_model(instance_arr@),
                        forall|j: int| 0 <= j < n ==> #[trigger] items[j] == value_model(instance_arr@[j]),
                        sarr.len() == 1,
                        item_schema@ == sarr[0],
                        schema@.shape == Shape::Array(sarr),
                        0 <= i <= n,
                        check_items(items, sarr[0], i as int, path@, report1) == Ok::<
                            Seq<Finding>,
                            Finding,
                        >(items_model(report@)),
                    decreases n - i,
                {
                    let mut item_path = String::from_str(path);
                    item_path.append("[");
                    push_usize(&mut item_path, i);
                    item_path.append("]");
                    assert(decreases_to!(schema@ => sarr[0])) by {
                        assert(decreases_to!(schema@ => schema@.shape));
                        assert(decreases_to!(schema@.shape => sarr));
                    }
                    match validate_recursive(&instance_arr[i], item_schema, item_path.as_str(), report) {
                        Ok(()) => {},
                        Err(e) => {
                            proof {
                                assert(item_path@ == path@ + "["@ + nat_text(i as nat) + "]"@);
                                assert(check_items(items, sarr[0], i + 1, path@, report1) == Err::<
                                    Seq<Finding>,
                                    Finding,
                                >(item_model(e)));
                                lemma_check_items_err(items, sarr[0], i + 1, n as int, path@, report1);
                                assert(items_report_at_error(items, sarr[0], i + 1, path@, report1)
                                    == items_model(report@));
                                lemma_items_report_at_error(items, sarr[0], i + 1, n as int, path@, report1);
                            }
                            return Err(e);
                        },
                    }
                    i = i + 1;
                }
                Ok(())
            } else {
                let mut msg = String::from_str("Expected array, found ");
                msg.append(instance.kind_name());
                push_item(report, ValidationLevel::Error, path, msg);
                Ok(())
            }
        },
        _ => {
            assert(!is_extended(schema@));
            let mut msg = String::from_str("Unsupported schema value type: ");
            msg.append(effective.kind_name());
            Err(ValidationItem { level: ValidationLevel::Error, path: String::from_str(path), message: msg })
        },
    }
}

/// Validate a COSY value against a schema definition.
///
/// Returns the findings (errors and warnings) in order, or the first
/// problem that makes the schema unusable.
pub fn validate(instance: &Value, schema: &Value) -> (r: Result<Vec<ValidationItem>, ValidationItem>)
    ensures
        match validation(instance@, schema@) {
            Ok(rep) => r matches Ok(v) && items_model(v@) == rep,
            Err(f) => r matches Err(e) && item_model(e) == f,
        },
{
    let mut report: Vec<ValidationItem> = Vec::new();
    assert(items_model(report@) =~= Seq::empty());
    match validate_recursive(instance, schema, "$", &mut report) {
        Ok(()) => Ok(report),
        Err(e) => Err(e),
    }
}

/// The documented type names and the values each accepts. A schema that is
/// one of these names never fails: a value it accepts gives no finding, any
/// other value exactly one error at `$` naming the expected and the found
/// type. `any` accepts every value, `number` integers and floats, `boolean`
/// and its short form `bool` booleans, and `string`, `integer`, `float` and
/// `null` the values of that type alone.
pub proof fn lemma_type_names(inst: Node, schema: Node, t: Seq<char>)
    requires
        schema.shape == Shape::Str(t),
        t == "any"@ || t == "string"@ || t == "integer"@ || t == "float"@ || t == "number"@
            || t == "boolean"@ || t == "bool"@ || t == "null"@,
    ensures
        ({
            let accepted = if t == "any"@ {
                true
            } else if t == "number"@ {
                inst.shape is Integer || inst.shape is Float
            } else if t == "boolean"@ || t == "bool"@ {
                inst.shape is Bool
            } else if t == "string"@ {
                inst.shape is Str
            } else if t == "integer"@ {
                inst.shape is Integer
            } else if t == "float"@ {
                inst.shape is Float
            } else {
                inst.shape is Null
            };
            validation(inst, schema) == if accepted {
                Ok::<Seq<Finding>, Finding>(Seq::empty())
            } else {
                Ok(
                    seq![
                        Finding {
                            level: ValidationLevel::Error,
                            path: "$"@,
                            message: "Type mismatch: expected "@ + t + ", found "@ + shape_type_name(inst.shape),
                        },
                    ],
                )
            }
        }),
{
    reveal_strlit("any");
    reveal_strlit("string");
    reveal_strlit("integer");
    reveal_strlit("float");
    reveal_strlit("number");
    reveal_strlit("boolean");
    reveal_strlit("bool");
    reveal_strlit("null");
    assert(!is_extended(schema));
    assert(meta_effective(schema) == schema);
    assert(meta_deprecated(schema) is None);
    assert(validation(inst, schema) == check_type(inst, t, "$"@, Seq::empty()));
    assert("any"@[0] == 'a' && "string"@[0] == 's' && "integer"@[0] == 'i' && "float"@[0] == 'f'
        && "number"@[0] == 'n' && "boolean"@[0] == 'b' && "bool"@[0] == 'b' && "null"@[0] == 'n');
    assert(t.len() > 0);
    if t == "any"@ {
    } else if t == "number"@ {
        assert(type_matches(inst.shape, t) == Some(inst.shape is Integer || inst.shape is Float));
    } else if t == "boolean"@ || t == "bool"@ {
        assert(type_matches(inst.shape, t) == Some(inst.shape is Bool));
    } else if t == "string"@ {
        assert(type_matches(inst.shape, t) == Some(inst.shape is Str));
    } else if t == "integer"@ {
        assert(type_matches(inst.shape, t) == Some(inst.shape is Integer));
    } else if t == "float"@ {
        assert(type_matches(inst.shape, t) == Some(inst.shape is Float));
    } else {
        assert(type_matches(inst.shape, t) == Some(inst.shape is Null));
    }
    assert(Seq::<Finding>::empty().push(
        error_at("$"@, "Type mismatch: expected "@ + t + ", found "@ + shape_type_name(inst.shape)),
    ) =~= seq![
        Finding {
            level: ValidationLevel::Error,
            path: "$"@,
            message: "Type mismatch: expected "@ + t + ", found "@ + shape_type_name(inst.shape),
        },
    ]);
}

/// Validation only adds findings: what was reported before stays, in order.
pub proof fn lemma_validate_extends(inst: Node, schema: Node, path: Seq<char>, report: Seq<Finding>)
    ensures
        validate_node(inst, schema, path, report) matches Ok(r) ==> report.is_prefix_of(r),
    decreases schema, 0int,
{
    let report1 = match meta_deprecated(schema) {
        Some(m) => report.push(
            Finding { level: ValidationLevel::Warning, path, message: "Deprecated usage: "@ + m },
        ),
        None => report,
    };
    assert(report.is_prefix_of(report1));
    match meta_effective(schema).shape {
        Shape::Str(t) => {},
        _ => match schema.shape {
            Shape::Object(ses) => match inst.shape {
                Shape::Object(ies) => {
                    lemma_check_fields_extends(ies, ses, ses.len() as int, path, report1);
                    if let Ok(r2) = check_fields(ies, ses, ses.len() as int, path, report1) {
                        lemma_unknown_fields_extends(ies, ses, ies.len() as int, path, r2);
                    }
                },
                _ => {},
            },
            Shape::Array(sarr) => if sarr.len() == 1 {
                if let Shape::Array(items) = inst.shape {
                    lemma_check_items_extends(items, sarr[0], items.len() as int, path, report1);
                }
            },
            _ => {},
        },
    }
}

pub proof fn lemma_check_fields_extends(
    ies: Seq<(Seq<char>, Node)>,
    ses: Seq<(Seq<char>, Node)>,
    k: int,
    path: Seq<char>,
    report: Seq<Finding>,
)
    ensures
        check_fields(ies, ses, k, path, report) matches Ok(r) ==> report.is_prefix_of(r),
    decreases ses, k,
{
    if 0 < k <= ses.len() {
        lemma_check_fields_extends(ies, ses, k - 1, path, report);
        if let Ok(r) = check_fields(ies, ses, k - 1, path, report) {
            let key = ses[k - 1].0;
            match find_key(ies, key) {
                None => {},
                Some(i) => {
                    lemma_validate_extends(ies[i].1, ses[k - 1].1, path + "."@ + key, r);
                },
            }
        }
    }
}

pub proof fn lemma_check_items_extends(
    items: Seq<Node>,
    item_schema: Node,
    k: int,
    path: Seq<char>,
    report: Seq<Finding>,
)
    ensures
        check_items(items, item_schema, k, path, report) matches Ok(r) ==> report.is_prefix_of(r),
    decreases item_schema, k,
{
    if 0 < k <= items.len() {
        lemma_check_items_extends(items, item_schema, k - 1, path, report);
        if let Ok(r) = check_items(items, item_schema, k - 1, path, report) {
            lemma_validate_extends(
                items[k - 1],
                item_schema,
                path + "["@ + nat_text((k - 1) as nat) + "]"@,
                r,
            );
        }
    }
}

pub proof fn lemma_unknown_fields_extends(
    ies: Seq<(Seq<char>, Node)>,
    ses: Seq<(Seq<char>, Node)>,
    k: int,
    path: Seq<char>,
    report: Seq<Finding>,
)
    ensures
        report.is_prefix_of(unknown_fields(ies, ses, k, path, report)),
    decreases k,
{
    if 0 < k <= ies.len() {
        lemma_unknown_fields_extends(ies, ses, k - 1, path, report);
    }
}

/// A finding in a report stays in any report that extends it.
proof fn lemma_prefix_contains(a: Seq<Finding>, b: Seq<Finding>, f: Finding)
    requires
        a.is_prefix_of(b),
        a.contains(f),
    ensures
        b.contains(f),
{
    let i = choose|i: int| 0 <= i < a.len() && a[i] == f;
    assert(b[i] == a[i]);
}

/// The fields of an object schema up to position `j` are checked in a
/// report that the whole check extends.
proof fn lemma_check_fields_step(
    ies: Seq<(Seq<char>, Node)>,
    ses: Seq<(Seq<char>, Node)>,
    j: int,
    k: int,
    path: Seq<char>,
    report: Seq<Finding>,
)
    requires
        0 <= j <= k <= ses.len(),
        check_fields(ies, ses, k, path, report) is Ok,
    ensures
        check_fields(ies, ses, j, path, report) is Ok,
        check_fields(ies, ses, j, path, report)->Ok_0.is_prefix_of(
            check_fields(ies, ses, k, path, report)->Ok_0,
        ),
    decreases k - j,
{
    if j < k {
        let r = check_fields(ies, ses, k - 1, path, report);
        lemma_check_fields_step(ies, ses, j, k - 1, path, report);
        let key = ses[k - 1].0;
        match find_key(ies, key) {
            None => {},
            Some(i) => {
                lemma_validate_extends(ies[i].1, ses[k - 1].1, path + "."@ + key, r->Ok_0);
            },
        }
    } else {
        assert(check_fields(ies, ses, j, path, report)->Ok_0 =~= check_fields(ies, ses, k, path, report)->Ok_0.subrange(0, check_fields(ies, ses, j, path, report)->Ok_0.len() as int));
    }
}

/// The report of `unknown_fields` up to position `j` is extended by the
/// report up to `k`.
proof fn lemma_unknown_fields_step(
    ies: Seq<(Seq<char>, Node)>,
    ses: Seq<(Seq<char>, Node)>,
    j: int,
    k: int,
    path: Seq<char>,
    report: Seq<Finding>,
)
    requires
        0 <= j <= k <= ies.len(),
    ensures
        unknown_fields(ies, ses, j, path, report).is_prefix_of(unknown_fields(ies, ses, k, path, report)),
    decreases k - j,
{
    if j < k {
        lemma_unknown_fields_step(ies, ses, j, k - 1, path, report);
    } else {
        assert(unknown_fields(ies, ses, j, path, report) =~= unknown_fields(ies, ses, k, path, report).subrange(0, unknown_fields(ies, ses, j, path, report).len() as int));
    }
}

/// A required field that an object lacks is reported: validating an object
/// against a plain object schema that names `key` at position `j`, not
/// optional, reports the missing field at the object's path.
pub proof fn lemma_missing_field_reported(
    inst: Node,
    schema: Node,
    path: Seq<char>,
    report: Seq<Finding>,
    j: int,
)
    requires
        inst.shape is Object,
        schema.shape is Object,
        !is_extended(schema),
        0 <= j < schema.shape->Object_0.len(),
        find_key(inst.shape->Object_0, schema.shape->Object_0[j].0) is None,
        !meta_optional(schema.shape->Object_0[j].1),
        validate_node(inst, schema, path, report) is Ok,
    ensures
        validate_node(inst, schema, path, report)->Ok_0.contains(
            error_at(path, "Missing required field '"@ + schema.shape->Object_0[j].0 + "'"@),
        ),
{
    let ies = inst.shape->Object_0;
    let ses = schema.shape->Object_0;
    let key = ses[j].0;
    let f = error_at(path, "Missing required field '"@ + key + "'"@);
    let n = ses.len() as int;
    lemma_check_fields_step(ies, ses, j + 1, n, path, report);
    let rj1 = check_fields(ies, ses, j + 1, path, report)->Ok_0;
    assert(rj1.last() == f);
    assert(rj1.contains(f));
    let r2 = check_fields(ies, ses, n, path, report)->Ok_0;
    lemma_prefix_contains(rj1, r2, f);
    lemma_unknown_fields_extends(ies, ses, ies.len() as int, path, r2);
    lemma_prefix_contains(r2, unknown_fields(ies, ses, ies.len() as int, path, r2), f);
}

/// A field that the schema does not name is reported as unknown, with the
/// suggestion of a near schema key.
pub proof fn lemma_unknown_field_reported(
    inst: Node,
    schema: Node,
    path: Seq<char>,
    report: Seq<Finding>,
    i: int,
)
    requires
        inst.shape is Object,
        schema.shape is Object,
        !is_extended(schema),
        0 <= i < inst.shape->Object_0.len(),
        find_key(schema.shape->Object_0, inst.shape->Object_0[i].0) is None,
        validate_node(inst, schema, path, report) is Ok,
    ensures
        validate_node(inst, schema, path, report)->Ok_0.contains(
            error_at(
                path,
                "Unknown field '"@ + inst.shape->Object_0[i].0 + "'"@ + suggestion(
                    inst.shape->Object_0[i].0,
                    keys_of(schema.shape->Object_0),
                ),
            ),
        ),
{
    let ies = inst.shape->Object_0;
    let ses = schema.shape->Object_0;
    let key = ies[i].0;
    let f = error_at(path, "Unknown field '"@ + key + "'"@ + suggestion(key, keys_of(ses)));
    let r2 = check_fields(ies, ses, ses.len() as int, path, report)->Ok_0;
    let ri1 = unknown_fields(ies, ses, i + 1, path, r2);
    assert(ri1.last() == f);
    assert(ri1.contains(f));
    lemma_unknown_fields_step(ies, ses, i + 1, ies.len() as int, path, r2);
    lemma_prefix_contains(ri1, unknown_fields(ies, ses, ies.len() as int, path, r2), f);
}

} // verus!
