//! Config inclusion: the `extends` and `include` directives.
//!
//! An object may name a base file under `extends` and a mixin file under
//! `include`. Resolution replaces the directives by the named files' contents:
//! the base first, the mixin merged over it, and the object's own entries
//! merged over both. Named files are resolved the same way, one level deeper,
//! up to a fixed depth.
//!
//! The files themselves come from a table of loaded sources. When resolution
//! needs a file that the table lacks, it stops and names it; the caller loads
//! the file, adds it to the table and runs resolution again.
use vstd::prelude::*;
use crate::value::{Node, Shape, Value, ValueKind, ObjectMap, find_key, shape_type_name,
    value_model, values_model, entries_model, lemma_entries_model, lemma_values_model,
    lemma_entries_model_push, well_keyed, distinct_keys};
use crate::merge::{merged_entries, merge_maps, lemma_merged_entries_into_empty, lemma_merged_entries,
    lookup, merged_lookup};
use crate::error::{CosynError, error_text};
use crate::syntax::lexer::env_model;
use crate::syntax::parser::{ReadOutcome, read_text, read_agrees, from_str_with_env};
use crate::text::str_eq;

verus! {

broadcast use crate::value::lemma_entry_seq;

/// The deepest level of nested files that resolution follows.
pub const MAX_DEPTH: usize = 10;

/// Errors that can occur during config inclusion.
#[derive(Debug, Clone, PartialEq)]
pub enum IncludeError {
    /// A named file could not be read.
    IoError(String),
    /// A named file could not be parsed.
    ParseError(CosynError),
    InvalidIncludePath { path: String, message: String },
    /// Files name each other deeper than `MAX_DEPTH` levels.
    RecursionLimitExceeded,
    /// A directive is not a string, or a named file is not an object.
    InvalidIncludeTarget(String),
}

/// The text shown for an inclusion error.
pub open spec fn include_error_text(e: IncludeError) -> Seq<char> {
    match e {
        IncludeError::IoError(m) => "IO error during include: "@ + m@,
        IncludeError::ParseError(c) => "Parse error in included file: "@ + error_text(c),
        IncludeError::InvalidIncludePath { path, message } => "Invalid include path '"@ + path@
            + "': "@ + message@,
        IncludeError::RecursionLimitExceeded => "Recursion limit exceeded (max 10 depth)"@,
        IncludeError::InvalidIncludeTarget(m) => "Invalid include usage: "@ + m@,
    }
}

impl IncludeError {
    /// The message of this error, as displayed.
    pub fn to_string(&self) -> (s: String)
        ensures
            s@ == include_error_text(*self),
    {
        match self {
            IncludeError::IoError(m) => {
                let mut s = String::from_str("IO error during include: ");
                s.append(m.as_str());
                s
            },
            IncludeError::ParseError(c) => {
                let mut s = String::from_str("Parse error in included file: ");
                let t = c.to_string();
                s.append(t.as_str());
                s
            },
            IncludeError::InvalidIncludePath { path, message } => {
                let mut s = String::from_str("Invalid include path '");
                s.append(path.as_str());
                s.append("': ");
                s.append(message.as_str());
                s
            },
            IncludeError::RecursionLimitExceeded => String::from_str(
                "Recursion limit exceeded (max 10 depth)",
            ),
            IncludeError::InvalidIncludeTarget(m) => {
                let mut s = String::from_str("Invalid include usage: ");
                s.append(m.as_str());
                s
            },
        }
    }
}

/// A source file that resolution may use: the text found when `path` is
/// looked up from the directory `base_dir`, and the directory of that file,
/// against which the paths it names are looked up in turn.
#[derive(Debug, Clone, PartialEq)]
pub struct Loaded {
    pub base_dir: String,
    pub path: String,
    pub content: String,
    pub dir: String,
}

/// Where resolution stopped short of a result.
#[derive(Debug, Clone, PartialEq)]
pub enum Halt {
    /// The table of sources has no entry for `path` looked up from `base_dir`.
    NeedsFile { base_dir: String, path: String },
    /// Resolution failed.
    Failed(IncludeError),
}

/// Mathematical model of a halt.
pub enum HaltModel {
    NeedsFile(Seq<char>, Seq<char>),
    Depth,
    Target(Seq<char>),
    Unreadable(ReadOutcome),
}

pub open spec fn halt_agrees(h: Halt, m: HaltModel) -> bool {
    match m {
        HaltModel::NeedsFile(b, p) => h matches Halt::NeedsFile { base_dir, path } && base_dir@
            == b && path@ == p,
        HaltModel::Depth => h matches Halt::Failed(IncludeError::RecursionLimitExceeded),
        HaltModel::Target(msg) => h matches Halt::Failed(IncludeError::InvalidIncludeTarget(t))
            && t@ == msg,
        HaltModel::Unreadable(o) => h matches Halt::Failed(IncludeError::ParseError(c))
            && read_agrees(Err(c), o),
    }
}

/// The first source in the table for `path` looked up from `base_dir`.
pub open spec fn find_source(files: Seq<Loaded>, base_dir: Seq<char>, path: Seq<char>) -> Option<
    int,
>
    decreases files.len(),
{
    if files.len() == 0 {
        None
    } else {
        match find_source(files.drop_last(), base_dir, path) {
            Some(i) => Some(i),
            None => if files.last().base_dir@ == base_dir && files.last().path@ == path {
                Some(files.len() - 1)
            } else {
                None
            },
        }
    }
}

/// The value of the directive at position `at` among `es`, if any.
pub open spec fn directive(es: Seq<(Seq<char>, Node)>, at: Option<int>) -> Option<Node> {
    match at {
        Some(i) => Some(es[i].1),
        None => None,
    }
}

/// The result of resolving `n`, found in directory `base`, at nesting `depth`.
pub open spec fn resolved(
    n: Node,
    base: Seq<char>,
    files: Seq<Loaded>,
    env: Seq<(Seq<char>, Seq<char>)>,
    depth: int,
) -> Result<Node, HaltModel>
    decreases 11 - depth, n, 2int,
{
    if depth > MAX_DEPTH {
        Err(HaltModel::Depth)
    } else {
        match n.shape {
            Shape::Object(es) => {
                let ie = find_key(es, "extends"@);
                let im = find_key(es, "include"@);
                match resolved_entries(es, 0, ie, im, base, files, env, depth) {
                    Err(h) => Err(h),
                    Ok(local) => match layer(n, directive(es, ie), "Extends"@, base, files, env, depth) {
                        Err(h) => Err(h),
                        Ok(be) => match layer(n, directive(es, im), "Include"@, base, files, env, depth) {
                            Err(h) => Err(h),
                            Ok(me) => Ok(
                                Node {
                                    shape: Shape::Object(merged_entries(merged_entries(be, me), local)),
                                    comments: n.comments,
                                },
                            ),
                        },
                    },
                }
            },
            Shape::Array(items) => match resolved_items(items, 0, base, files, env, depth) {
                Err(h) => Err(h),
                Ok(out) => Ok(Node { shape: Shape::Array(out), comments: n.comments }),
            },
            _ => Ok(n),
        }
    }
}

/// The entries from position `i` on, resolved in order, without the
/// directives at positions `ie` and `im`.
pub open spec fn resolved_entries(
    es: Seq<(Seq<char>, Node)>,
    i: int,
    ie: Option<int>,
    im: Option<int>,
    base: Seq<char>,
    files: Seq<Loaded>,
    env: Seq<(Seq<char>, Seq<char>)>,
    depth: int,
) -> Result<Seq<(Seq<char>, Node)>, HaltModel>
    decreases 11 - depth, es, es.len() - i,
{
    if i < 0 || i >= es.len() {
        Ok(Seq::empty())
    } else if ie == Some(i) || im == Some(i) {
        resolved_entries(es, i + 1, ie, im, base, files, env, depth)
    } else {
        match resolved(es[i].1, base, files, env, depth) {
            Err(h) => Err(h),
            Ok(m) => match resolved_entries(es, i + 1, ie, im, base, files, env, depth) {
                Err(h) => Err(h),
                Ok(rest) => Ok(seq![(es[i].0, m)] + rest),
            },
        }
    }
}

/// The items from position `i` on, resolved in order.
pub open spec fn resolved_items(
    items: Seq<Node>,
    i: int,
    base: Seq<char>,
    files: Seq<Loaded>,
    env: Seq<(Seq<char>, Seq<char>)>,
    depth: int,
) -> Result<Seq<Node>, HaltModel>
    decreases 11 - depth, items, items.len() - i,
{
    if i < 0 || i >= items.len() {
        Ok(Seq::empty())
    } else {
        match resolved(items[i], base, files, env, depth) {
            Err(h) => Err(h),
            Ok(m) => match resolved_items(items, i + 1, base, files, env, depth) {
                Err(h) => Err(h),
                Ok(rest) => Ok(seq![m] + rest),
            },
        }
    }
}

/// The entries from position `i` on as they stand, without the directives
/// at positions `ie` and `im`.
pub open spec fn unresolved_entries(es: Seq<(Seq<char>, Node)>, i: int, ie: Option<int>, im: Option<int>) -> Seq<
    (Seq<char>, Node),
>
    decreases es.len() - i,
{
    if i < 0 || i >= es.len() {
        Seq::empty()
    } else if ie == Some(i) || im == Some(i) {
        unresolved_entries(es, i + 1, ie, im)
    } else {
        seq![es[i]] + unresolved_entries(es, i + 1, ie, im)
    }
}

/// What resolution leaves of `n` when it stops: in each object on the way
/// the directives are gone, the entries before the one where it stopped are
/// resolved, that one is left as far as it got and the rest as they were;
/// an object whose own entries all resolved keeps them, resolved, when one
/// of its named files fails. Arrays likewise, item by item.
pub open spec fn partial(
    n: Node,
    base: Seq<char>,
    files: Seq<Loaded>,
    env: Seq<(Seq<char>, Seq<char>)>,
    depth: int,
) -> Node
    decreases 11 - depth, n, 2int,
{
    if depth > MAX_DEPTH {
        n
    } else {
        match n.shape {
            Shape::Object(es) => {
                let ie = find_key(es, "extends"@);
                let im = find_key(es, "include"@);
                Node {
                    shape: Shape::Object(
                        match resolved_entries(es, 0, ie, im, base, files, env, depth) {
                            Ok(local) => local,
                            Err(_) => partial_entries(es, 0, ie, im, base, files, env, depth),
                        },
                    ),
                    comments: n.comments,
                }
            },
            Shape::Array(items) => Node {
                shape: Shape::Array(partial_items(items, 0, base, files, env, depth)),
                comments: n.comments,
            },
            _ => n,
        }
    }
}

/// The entries from position `i` on as resolution leaves them when it
/// stops among them (see `partial`).
pub open spec fn partial_entries(
    es: Seq<(Seq<char>, Node)>,
    i: int,
    ie: Option<int>,
    im: Option<int>,
    base: Seq<char>,
    files: Seq<Loaded>,
    env: Seq<(Seq<char>, Seq<char>)>,
    depth: int,
) -> Seq<(Seq<char>, Node)>
    decreases 11 - depth, es, es.len() - i,
{
    if i < 0 || i >= es.len() {
        Seq::empty()
    } else if ie == Some(i) || im == Some(i) {
        partial_entries(es, i + 1, ie, im, base, files, env, depth)
    } else {
        match resolved(es[i].1, base, files, env, depth) {
            Err(_) => seq![(es[i].0, partial(es[i].1, base, files, env, depth))] + unresolved_entries(
                es,
                i + 1,
                ie,
                im,
            ),
            Ok(m) => seq![(es[i].0, m)] + partial_entries(es, i + 1, ie, im, base, files, env, depth),
        }
    }
}

/// The items from position `i` on as resolution leaves them when it stops
/// among them (see `partial`).
pub open spec fn partial_items(
    items: Seq<Node>,
    i: int,
    base: Seq<char>,
    files: Seq<Loaded>,
    env: Seq<(Seq<char>, Seq<char>)>,
    depth: int,
) -> Seq<Node>
    decreases 11 - depth, items, items.len() - i,
{
    if i < 0 || i >= items.len() {
        Seq::empty()
    } else {
        match resolved(items[i], base, files, env, depth) {
            Err(_) => seq![partial(items[i], base, files, env, depth)] + items.subrange(
                i + 1,
                items.len() as int,
            ),
            Ok(m) => seq![m] + partial_items(items, i + 1, base, files, env, depth),
        }
    }
}

/// The entries that a directive of object `owner` contributes: none when it
/// is absent; else the entries of the file it names, resolved one level
/// deeper, which must be an object. `what` names the directive in messages.
pub open spec fn layer(
    owner: Node,
    d: Option<Node>,
    what: Seq<char>,
    base: Seq<char>,
    files: Seq<Loaded>,
    env: Seq<(Seq<char>, Seq<char>)>,
    depth: int,
) -> Result<Seq<(Seq<char>, Node)>, HaltModel>
    decreases 11 - depth, owner, 1int,
{
    match d {
        None => Ok(Seq::empty()),
        Some(dv) => match dv.shape {
            Shape::Str(p) => if depth >= MAX_DEPTH + 1 {
                Err(HaltModel::Depth)
            } else {
                match find_source(files, base, p) {
                    None => Err(HaltModel::NeedsFile(base, p)),
                    Some(j) => match read_text(files[j].content@, env) {
                        ReadOutcome::Parsed(m) => match resolved(m, files[j].dir@, files, env, depth + 1) {
                            Err(h) => Err(h),
                            Ok(r) => match r.shape {
                                Shape::Object(res) => Ok(res),
                                other => Err(
                                    HaltModel::Target(
                                        "Included/Extended file '"@ + p + "' must be an Object, found "@
                                            + shape_type_name(other),
                                    ),
                                ),
                            },
                        },
                        o => Err(HaltModel::Unreadable(o)),
                    },
                }
            },
            other => Err(
                HaltModel::Target(what + " value must be a string, found "@ + shape_type_name(other)),
            ),
        },
    }
}

pub open spec fn index_of(o: Option<usize>) -> Option<int> {
    match o {
        Some(i) => Some(i as int),
        None => None,
    }
}

pub open spec fn node_of(o: Option<Value>) -> Option<Node> {
    match o {
        Some(v) => Some(v@),
        None => None,
    }
}

/// The directive at position `at` among `es`, once the first `n` entries
/// have been gone through.
pub open spec fn seen_directive(es: Seq<(Seq<char>, Node)>, at: Option<int>, n: int) -> Option<Node> {
    match at {
        Some(i) => if i < n {
            Some(es[i].1)
        } else {
            None
        },
        None => None,
    }
}

/// `acc` followed by the entries of `r`, if `r` succeeded.
pub open spec fn prepend_entries(
    acc: Seq<(Seq<char>, Node)>,
    r: Result<Seq<(Seq<char>, Node)>, HaltModel>,
) -> Result<Seq<(Seq<char>, Node)>, HaltModel> {
    match r {
        Ok(rest) => Ok(acc + rest),
        Err(h) => Err(h),
    }
}

/// `acc` followed by the items of `r`, if `r` succeeded.
pub open spec fn prepend_items(acc: Seq<Node>, r: Result<Seq<Node>, HaltModel>) -> Result<
    Seq<Node>,
    HaltModel,
> {
    match r {
        Ok(rest) => Ok(acc + rest),
        Err(h) => Err(h),
    }
}

pub open spec fn value_outcome(r: Result<Value, (Halt, Value)>, s: Result<Node, HaltModel>, p: Node) -> bool {
    match s {
        Ok(n) => r matches Ok(v) && v@ == n,
        Err(h) => r matches Err((e, w)) && halt_agrees(e, h) && w@ == p,
    }
}

pub open spec fn entries_outcome(
    r: Result<Vec<(String, Value)>, Halt>,
    s: Result<Seq<(Seq<char>, Node)>, HaltModel>,
) -> bool {
    match s {
        Ok(es) => r matches Ok(v) && entries_model(v@) == es,
        Err(h) => r matches Err(e) && halt_agrees(e, h),
    }
}

pub open spec fn items_outcome(
    r: Result<Vec<Value>, (Halt, Vec<Value>)>,
    s: Result<Seq<Node>, HaltModel>,
    p: Seq<Node>,
) -> bool {
    match s {
        Ok(ns) => r matches Ok(v) && values_model(v@) == ns,
        Err(h) => r matches Err((e, w)) && halt_agrees(e, h) && values_model(w@) == p,
    }
}

proof fn lemma_find_source_prefix(files: Seq<Loaded>, j: int, base: Seq<char>, path: Seq<char>)
    requires
        0 <= j <= files.len(),
        find_source(files.take(j), base, path) is Some,
    ensures
        find_source(files, base, path) == find_source(files.take(j), base, path),
    decreases files.len(),
{
    if j == files.len() {
        assert(files.take(j) =~= files);
    } else {
        assert(files.drop_last().take(j) =~= files.take(j));
        lemma_find_source_prefix(files.drop_last(), j, base, path);
    }
}

/// The first source in the table for `path` looked up from `base`.
fn find_file(files: &Vec<Loaded>, base: &str, path: &str) -> (r: Option<usize>)
    ensures
        index_of(r) == find_source(files@, base@, path@),
        r matches Some(j) ==> j < files@.len(),
{
    let mut k: usize = 0;
    while k < files.len()
        invariant
            0 <= k <= files.len(),
            find_source(files@.take(k as int), base@, path@) is None,
        decreases files.len() - k,
    {
        assert(files@.take(k + 1).drop_last() =~= files@.take(k as int));
        if str_eq(files[k].base_dir.as_str(), base) && str_eq(files[k].path.as_str(), path) {
            proof {
                lemma_find_source_prefix(files@, k + 1, base@, path@);
            }
            return Some(k);
        }
        k = k + 1;
    }
    assert(files@.take(k as int) =~= files@);
    None
}

/// A copy of an environment.
pub(crate) fn copy_env(env: &Vec<(String, String)>) -> (r: Vec<(String, String)>)
    ensures
        env_model(r@) == env_model(env@),
{
    let mut r: Vec<(String, String)> = Vec::new();
    let mut k: usize = 0;
    while k < env.len()
        invariant
            0 <= k <= env.len(),
            r@.len() == k,
            forall|j: int| 0 <= j < k ==> (#[trigger] r@[j]).0@ == env@[j].0@ && r@[j].1@ == env@[j].1@,
        decreases env.len() - k,
    {
        r.push((env[k].0.clone(), env[k].1.clone()));
        k = k + 1;
    }
    assert(env_model(r@) =~= env_model(env@));
    r
}

/// The entries that a directive contributes (see `layer`).
fn load_layer(
    d: Option<Value>,
    what: &str,
    base: &String,
    files: &Vec<Loaded>,
    env: &Vec<(String, String)>,
    depth: usize,
    Ghost(owner): Ghost<Node>,
) -> (r: Result<Vec<(String, Value)>, Halt>)
    ensures
        entries_outcome(r, layer(owner, node_of(d), what@, base@, files@, env_model(env@), depth as int)),
        r matches Ok(v) ==> distinct_keys(entries_model(v@)),
    decreases 11 - depth, owner, 1int,
{
    match d {
        None => {
            let e: Vec<(String, Value)> = Vec::new();
            assert(entries_model(e@) =~= Seq::empty());
            Ok(e)
        },
        Some(dv) => {
            let Value { kind, comments: _ } = dv;
            match kind {
                ValueKind::String(p) => {
                    if depth >= MAX_DEPTH + 1 {
                        return Err(Halt::Failed(IncludeError::RecursionLimitExceeded));
                    }
                    match find_file(files, base.as_str(), p.as_str()) {
                        None => Err(Halt::NeedsFile { base_dir: base.clone(), path: p }),
                        Some(j) => {
                            let f = &files[j];
                            match from_str_with_env(f.content.as_str(), copy_env(env)) {
                                Err(c) => Err(Halt::Failed(IncludeError::ParseError(c))),
                                Ok(m) => match resolve_value(m, &f.dir, files, env, depth + 1) {
                                    Err((h, _)) => Err(h),
                                    Ok(res) => {
                                        let Value { kind: rk, comments: _ } = res;
                                        match rk {
                                            ValueKind::Object(om) => Ok(om.into_entries()),
                                            other => {
                                                let mut msg = String::from_str("Included/Extended file '");
                                                msg.append(p.as_str());
                                                msg.append("' must be an Object, found ");
                                                msg.append(other.kind_name());
                                                Err(Halt::Failed(IncludeError::InvalidIncludeTarget(msg)))
                                            },
                                        }
                                    },
                                },
                            }
                        },
                    }
                },
                other => {
                    let mut msg = String::from_str(what);
                    msg.append(" value must be a string, found ");
                    msg.append(other.kind_name());
                    Err(Halt::Failed(IncludeError::InvalidIncludeTarget(msg)))
                },
            }
        },
    }
}

/// Resolve one value at nesting `depth`; when resolution stops, the halt
/// comes with what is left of the value (see `partial`).
fn resolve_value(
    v: Value,
    base: &String,
    files: &Vec<Loaded>,
    env: &Vec<(String, String)>,
    depth: usize,
) -> (r: Result<Value, (Halt, Value)>)
    ensures
        value_outcome(
            r,
            resolved(v@, base@, files@, env_model(env@), depth as int),
            partial(v@, base@, files@, env_model(env@), depth as int),
        ),
    decreases 11 - depth, v@, 2int,
{
    if depth > MAX_DEPTH {
        return Err((Halt::Failed(IncludeError::RecursionLimitExceeded), v));
    }
    let ghost vm = v@;
    let Value { kind, comments } = v;
    match kind {
        ValueKind::Object(map) => {
            let ghost es = map@;
            proof {
                use_type_invariant(&map);
            }
            let ie = map.position("extends");
            let im = map.position("include");
            assert(decreases_to!(vm => es));
            match resolve_entries(map.into_entries(), ie, im, base, files, env, depth) {
                Err((h, pe)) => Err((h, Value { kind: ValueKind::Object(ObjectMap { entries: pe }), comments })),
                Ok((local, xe, xm)) => match load_layer(xe, "Extends", base, files, env, depth, Ghost(vm)) {
                    Err(h) => Err(
                        (h, Value { kind: ValueKind::Object(ObjectMap { entries: local }), comments }),
                    ),
                    Ok(be) => match load_layer(xm, "Include", base, files, env, depth, Ghost(vm)) {
                        Err(h) => Err(
                            (h, Value { kind: ValueKind::Object(ObjectMap { entries: local }), comments }),
                        ),
                        Ok(me) => {
                            let m1 = merge_maps(ObjectMap { entries: be }, ObjectMap { entries: me });
                            let m2 = merge_maps(m1, ObjectMap { entries: local });
                            Ok(Value { kind: ValueKind::Object(m2), comments })
                        },
                    },
                },
            }
        },
        ValueKind::Array(items) => {
            let ghost its = values_model(items@);
            assert(decreases_to!(vm => its));
            match resolve_items(items, base, files, env, depth) {
                Err((h, pi)) => Err((h, Value { kind: ValueKind::Array(pi), comments })),
                Ok(out) => Ok(Value { kind: ValueKind::Array(out), comments }),
            }
        },
        other => Ok(Value { kind: other, comments }),
    }
}

/// Resolve the entries of an object in order, setting aside the directives
/// at positions `ie` and `im`, which are handed back.
fn resolve_entries(
    entries: Vec<(String, Value)>,
    ie: Option<usize>,
    im: Option<usize>,
    base: &String,
    files: &Vec<Loaded>,
    env: &Vec<(String, String)>,
    depth: usize,
) -> (r: Result<(Vec<(String, Value)>, Option<Value>, Option<Value>), (Halt, Vec<(String, Value)>)>)
    requires
        index_of(ie) == find_key(entries_model(entries@), "extends"@),
        index_of(im) == find_key(entries_model(entries@), "include"@),
        distinct_keys(entries_model(entries@)),
        depth <= MAX_DEPTH,
    ensures
        match resolved_entries(
            entries_model(entries@),
            0,
            index_of(ie),
            index_of(im),
            base@,
            files@,
            env_model(env@),
            depth as int,
        ) {
            Ok(loc) => r matches Ok((l, xe, xm)) && entries_model(l@) == loc && distinct_keys(loc) && node_of(xe)
                == directive(entries_model(entries@), index_of(ie)) && node_of(xm) == directive(
                entries_model(entries@),
                index_of(im),
            ),
            Err(h) => r matches Err((e, pe)) && halt_agrees(e, h) && entries_model(pe@) == partial_entries(
                entries_model(entries@),
                0,
                index_of(ie),
                index_of(im),
                base@,
                files@,
                env_model(env@),
                depth as int,
            ) && distinct_keys(entries_model(pe@)),
        },
    decreases 11 - depth, entries_model(entries@), 0int,
{
    let ghost es = entries_model(entries@);
    let ghost envm = env_model(env@);
    let ghost ei = index_of(ie);
    let ghost mi = index_of(im);
    proof {
        lemma_entries_model(entries@);
        crate::value::lemma_find_key(es, "extends"@);
        crate::value::lemma_find_key(es, "include"@);
        reveal_strlit("extends");
        reveal_strlit("include");
        assert("extends"@[1] != "include"@[1]);
    }
    let total = entries.len();
    let mut rest = entries;
    let mut local: Vec<(String, Value)> = Vec::new();
    let mut xe: Option<Value> = None;
    let mut xm: Option<Value> = None;
    let mut n: usize = 0;
    assert(entries_model(local@) =~= Seq::empty());
    assert(Seq::<(Seq<char>, Node)>::empty() + resolved_entries(es, 0, ei, mi, base@, files@, envm, depth as int)->Ok_0
        =~= resolved_entries(es, 0, ei, mi, base@, files@, envm, depth as int)->Ok_0);
    assert(Seq::<(Seq<char>, Node)>::empty() + partial_entries(es, 0, ei, mi, base@, files@, envm, depth as int)
        =~= partial_entries(es, 0, ei, mi, base@, files@, envm, depth as int));
    proof {
        lemma_partial_entries_distinct(es, 0, ei, mi, base@, files@, envm, depth as int);
    }
    while rest.len() > 0
        invariant
            partial_entries(es, 0, ei, mi, base@, files@, envm, depth as int) == entries_model(local@)
                + partial_entries(es, n as int, ei, mi, base@, files@, envm, depth as int),
            distinct_keys(partial_entries(es, 0, ei, mi, base@, files@, envm, depth as int)),
            n + rest@.len() == es.len(),
            forall|j: int|
                0 <= j < rest@.len() ==> es[n + j] == (
                    #[trigger] rest@[j].0@,
                    value_model(rest@[j].1),
                ),
            resolved_entries(es, 0, ei, mi, base@, files@, envm, depth as int) == prepend_entries(
                entries_model(local@),
                resolved_entries(es, n as int, ei, mi, base@, files@, envm, depth as int),
            ),
            node_of(xe) == seen_directive(es, ei, n as int),
            node_of(xm) == seen_directive(es, mi, n as int),
            ei matches Some(i) ==> 0 <= i < es.len(),
            mi matches Some(i) ==> 0 <= i < es.len(),
            ei == index_of(ie),
            mi == index_of(im),
            ei is Some && mi is Some ==> ei != mi,
            envm == env_model(env@),
            depth <= MAX_DEPTH,
            es.len() == total,
            es == entries_model(entries@),
        decreases rest@.len(),
    {
        let ghost r0 = rest@;
        let ghost l0 = entries_model(local@);
        let (k, v) = rest.remove(0);
        assert(es[n + 0] == (r0[0].0@, value_model(r0[0].1)));
        assert(es[n as int] == (k@, v@));
        assert forall|j: int| 0 <= j < rest@.len() implies es[(n + 1) + j] == (
            #[trigger] rest@[j].0@,
            value_model(rest@[j].1),
        ) by {
            assert(rest@[j] == r0[j + 1]);
            assert(es[n + (j + 1)] == (r0[j + 1].0@, value_model(r0[j + 1].1)));
        }
        let at_e = match ie {
            Some(i) => i == n,
            None => false,
        };
        let at_m = match im {
            Some(i) => i == n,
            None => false,
        };
        if at_e {
            xe = Some(v);
        } else if at_m {
            xm = Some(v);
        } else {
            assert(v@ == es[n as int].1);
            assert(decreases_to!(es => es[n as int].1));
            match resolve_value(v, base, files, env, depth) {
                Err((h, pv)) => {
                    proof {
                        lemma_entries_model_push(local@, (k, pv));
                        let kp = (k@, pv@);
                        let un = unresolved_entries(es, n + 1, ei, mi);
                        assert(l0 + (seq![kp] + un) =~= l0.push(kp) + un);
                    }
                    local.push((k, pv));
                    let mut m: usize = n + 1;
                    while rest.len() > 0
                        invariant
                            m + rest@.len() == es.len(),
                            forall|j: int|
                                0 <= j < rest@.len() ==> es[m + j] == (
                                    #[trigger] rest@[j].0@,
                                    value_model(rest@[j].1),
                                ),
                            partial_entries(es, 0, ei, mi, base@, files@, envm, depth as int) == entries_model(
                                local@,
                            ) + unresolved_entries(es, m as int, ei, mi),
                            es.len() == total,
                            ei == index_of(ie),
                            mi == index_of(im),
                        decreases rest@.len(),
                    {
                        let ghost r1 = rest@;
                        let ghost l1 = entries_model(local@);
                        let (k2, v2) = rest.remove(0);
                        assert(es[m + 0] == (r1[0].0@, value_model(r1[0].1)));
                        assert forall|j: int| 0 <= j < rest@.len() implies es[(m + 1) + j] == (
                            #[trigger] rest@[j].0@,
                            value_model(rest@[j].1),
                        ) by {
                            assert(rest@[j] == r1[j + 1]);
                            assert(es[m + (j + 1)] == (r1[j + 1].0@, value_model(r1[j + 1].1)));
                        }
                        let skip_e = match ie {
                            Some(i) => i == m,
                            None => false,
                        };
                        let skip_m = match im {
                            Some(i) => i == m,
                            None => false,
                        };
                        if !skip_e && !skip_m {
                            proof {
                                lemma_entries_model_push(local@, (k2, v2));
                                let e2 = (k2@, v2@);
                                let un = unresolved_entries(es, m + 1, ei, mi);
                                assert(l1 + (seq![e2] + un) =~= l1.push(e2) + un);
                            }
                            local.push((k2, v2));
                        }
                        m = m + 1;
                    }
                    assert(entries_model(local@) + Seq::<(Seq<char>, Node)>::empty() =~= entries_model(local@));
                    return Err((h, local));
                },
                Ok(m) => {
                    proof {
                        lemma_entries_model_push(local@, (k, m));
                    }
                    let ghost km = (k@, m@);
                    local.push((k, m));
                    proof {
                        match resolved_entries(es, n + 1, ei, mi, base@, files@, envm, depth as int) {
                            Ok(tail) => {
                                assert(l0 + (seq![km] + tail) =~= l0.push(km) + tail);
                            },
                            Err(_) => {},
                        }
                        let pt = partial_entries(es, n + 1, ei, mi, base@, files@, envm, depth as int);
                        assert(l0 + (seq![km] + pt) =~= l0.push(km) + pt);
                    }
                },
            }
        }
        n = n + 1;
    }
    assert(entries_model(local@) + Seq::<(Seq<char>, Node)>::empty() =~= entries_model(local@));
    proof {
        lemma_resolved_entries_distinct(es, 0, ei, mi, base@, files@, envm, depth as int);
    }
    Ok((local, xe, xm))
}

/// Resolving entries with distinct keys gives entries with distinct keys,
/// each the key of an entry from position `i` on.
proof fn lemma_resolved_entries_distinct(
    es: Seq<(Seq<char>, Node)>,
    i: int,
    ie: Option<int>,
    im: Option<int>,
    base: Seq<char>,
    files: Seq<Loaded>,
    env: Seq<(Seq<char>, Seq<char>)>,
    depth: int,
)
    requires
        distinct_keys(es),
        0 <= i,
    ensures
        resolved_entries(es, i, ie, im, base, files, env, depth) matches Ok(r) ==> {
            &&& distinct_keys(r)
            &&& forall|k: int| 0 <= k < r.len() ==> exists|j: int| i <= j < es.len() && #[trigger] r[k].0 == es[j].0
        },
    decreases es.len() - i,
{
    if i < es.len() {
        lemma_resolved_entries_distinct(es, i + 1, ie, im, base, files, env, depth);
        if !(ie == Some(i) || im == Some(i)) {
            if let Ok(m) = resolved(es[i].1, base, files, env, depth) {
                if let Ok(rest) = resolved_entries(es, i + 1, ie, im, base, files, env, depth) {
                    let r = seq![(es[i].0, m)] + rest;
                    assert forall|k: int| 0 <= k < r.len() implies exists|j: int| i <= j < es.len() && #[trigger] r[k].0
                        == es[j].0 by {
                        if k == 0 {
                            assert(r[0].0 == es[i].0);
                        } else {
                            assert(r[k] == rest[k - 1]);
                            let j = choose|j: int| i + 1 <= j < es.len() && #[trigger] rest[k - 1].0 == es[j].0;
                            assert(r[k].0 == es[j].0);
                        }
                    }
                    assert forall|a: int, b: int| 0 <= a < b < r.len() implies #[trigger] r[a].0 != #[trigger] r[b].0 by {
                        assert(r[b] == rest[b - 1]);
                        let jb = choose|j: int| i + 1 <= j < es.len() && #[trigger] rest[b - 1].0 == es[j].0;
                        if a == 0 {
                            assert(es[i].0 != es[jb].0);
                        } else {
                            assert(r[a] == rest[a - 1]);
                        }
                    }
                }
            }
        }
    }
}

/// The entries from position `i` on, as they stand without the directives,
/// have distinct keys, each the key of an entry from position `i` on.
proof fn lemma_unresolved_entries_distinct(es: Seq<(Seq<char>, Node)>, i: int, ie: Option<int>, im: Option<int>)
    requires
        distinct_keys(es),
        0 <= i,
    ensures
        distinct_keys(unresolved_entries(es, i, ie, im)),
        forall|k: int|
            0 <= k < unresolved_entries(es, i, ie, im).len() ==> exists|j: int|
                i <= j < es.len() && #[trigger] unresolved_entries(es, i, ie, im)[k].0 == es[j].0,
    decreases es.len() - i,
{
    if i < es.len() {
        lemma_unresolved_entries_distinct(es, i + 1, ie, im);
        if !(ie == Some(i) || im == Some(i)) {
            let rest = unresolved_entries(es, i + 1, ie, im);
            lemma_head_and_keys_distinct(es, i, es[i].1, rest);
        }
    }
}

/// An entry with the key at position `i`, followed by entries with distinct
/// keys from later positions, has distinct keys from position `i` on.
proof fn lemma_head_and_keys_distinct(
    es: Seq<(Seq<char>, Node)>,
    i: int,
    v: Node,
    rest: Seq<(Seq<char>, Node)>,
)
    requires
        distinct_keys(es),
        0 <= i < es.len(),
        distinct_keys(rest),
        forall|k: int| 0 <= k < rest.len() ==> exists|j: int| i + 1 <= j < es.len() && #[trigger] rest[k].0 == es[j].0,
    ensures
        distinct_keys(seq![(es[i].0, v)] + rest),
        forall|k: int|
            0 <= k < (seq![(es[i].0, v)] + rest).len() ==> exists|j: int|
                i <= j < es.len() && #[trigger] (seq![(es[i].0, v)] + rest)[k].0 == es[j].0,
{
    let r = seq![(es[i].0, v)] + rest;
    assert forall|k: int| 0 <= k < r.len() implies exists|j: int| i <= j < es.len() && #[trigger] r[k].0 == es[j].0 by {
        if k == 0 {
            assert(r[0].0 == es[i].0);
        } else {
            assert(r[k] == rest[k - 1]);
            let j = choose|j: int| i + 1 <= j < es.len() && #[trigger] rest[k - 1].0 == es[j].0;
            assert(r[k].0 == es[j].0);
        }
    }
    assert forall|a: int, b: int| 0 <= a < b < r.len() implies #[trigger] r[a].0 != #[trigger] r[b].0 by {
        assert(r[b] == rest[b - 1]);
        let jb = choose|j: int| i + 1 <= j < es.len() && #[trigger] rest[b - 1].0 == es[j].0;
        if a == 0 {
            assert(es[i].0 != es[jb].0);
        } else {
            assert(r[a] == rest[a - 1]);
        }
    }
}

/// What resolution leaves of entries with distinct keys has distinct keys,
/// each the key of an entry from position `i` on.
proof fn lemma_partial_entries_distinct(
    es: Seq<(Seq<char>, Node)>,
    i: int,
    ie: Option<int>,
    im: Option<int>,
    base: Seq<char>,
    files: Seq<Loaded>,
    env: Seq<(Seq<char>, Seq<char>)>,
    depth: int,
)
    requires
        distinct_keys(es),
        0 <= i,
    ensures
        distinct_keys(partial_entries(es, i, ie, im, base, files, env, depth)),
        forall|k: int|
            0 <= k < partial_entries(es, i, ie, im, base, files, env, depth).len() ==> exists|j: int|
                i <= j < es.len() && #[trigger] partial_entries(es, i, ie, im, base, files, env, depth)[k].0
                    == es[j].0,
    decreases es.len() - i,
{
    if i < es.len() {
        lemma_partial_entries_distinct(es, i + 1, ie, im, base, files, env, depth);
        if !(ie == Some(i) || im == Some(i)) {
            match resolved(es[i].1, base, files, env, depth) {
                Err(_) => {
                    lemma_unresolved_entries_distinct(es, i + 1, ie, im);
                    lemma_head_and_keys_distinct(
                        es,
                        i,
                        partial(es[i].1, base, files, env, depth),
                        unresolved_entries(es, i + 1, ie, im),
                    );
                },
                Ok(m) => {
                    lemma_head_and_keys_distinct(
                        es,
                        i,
                        m,
                        partial_entries(es, i + 1, ie, im, base, files, env, depth),
                    );
                },
            }
        }
    }
}

/// Resolve the items of an array in order.
fn resolve_items(
    items: Vec<Value>,
    base: &String,
    files: &Vec<Loaded>,
    env: &Vec<(String, String)>,
    depth: usize,
) -> (r: Result<Vec<Value>, (Halt, Vec<Value>)>)
    requires
        depth <= MAX_DEPTH,
    ensures
        items_outcome(
            r,
            resolved_items(values_model(items@), 0, base@, files@, env_model(env@), depth as int),
            partial_items(values_model(items@), 0, base@, files@, env_model(env@), depth as int),
        ),
    decreases 11 - depth, values_model(items@), 0int,
{
    let ghost its = values_model(items@);
    let ghost envm = env_model(env@);
    proof {
        lemma_values_model(items@);
    }
    let total = items.len();
    let mut rest = items;
    let mut out: Vec<Value> = Vec::new();
    let mut n: usize = 0;
    assert(values_model(out@) =~= Seq::empty());
    assert(Seq::<Node>::empty() + resolved_items(its, 0, base@, files@, envm, depth as int)->Ok_0
        =~= resolved_items(its, 0, base@, files@, envm, depth as int)->Ok_0);
    assert(Seq::<Node>::empty() + partial_items(its, 0, base@, files@, envm, depth as int) =~= partial_items(
        its,
        0,
        base@,
        files@,
        envm,
        depth as int,
    ));
    while rest.len() > 0
        invariant
            partial_items(its, 0, base@, files@, envm, depth as int) == values_model(out@) + partial_items(
                its,
                n as int,
                base@,
                files@,
                envm,
                depth as int,
            ),
            n + rest@.len() == its.len(),
            forall|j: int| 0 <= j < rest@.len() ==> its[n + j] == value_model(#[trigger] rest@[j]),
            resolved_items(its, 0, base@, files@, envm, depth as int) == prepend_items(
                values_model(out@),
                resolved_items(its, n as int, base@, files@, envm, depth as int),
            ),
            envm == env_model(env@),
            depth <= MAX_DEPTH,
            its.len() == total,
            its == values_model(items@),
        decreases rest@.len(),
    {
        let ghost r0 = rest@;
        let ghost o0 = values_model(out@);
        let v = rest.remove(0);
        assert(its[n + 0] == value_model(r0[0]));
        assert forall|j: int| 0 <= j < rest@.len() implies its[(n + 1) + j] == value_model(
            #[trigger] rest@[j],
        ) by {
            assert(rest@[j] == r0[j + 1]);
            assert(its[n + (j + 1)] == value_model(r0[j + 1]));
        }
        assert(v@ == its[n as int]);
        assert(decreases_to!(its => its[n as int]));
        match resolve_value(v, base, files, env, depth) {
            Err((h, pv)) => {
                proof {
                    crate::value::lemma_values_model_push(out@, pv);
                }
                out.push(pv);
                let ghost o1 = out@;
                let mut rest = rest;
                out.append(&mut rest);
                proof {
                    lemma_values_model(out@);
                    lemma_values_model(o1);
                    let tail = its.subrange(n + 1, its.len() as int);
                    assert(values_model(out@) =~= values_model(o1) + tail) by {
                        assert forall|j: int| 0 <= j < out@.len() implies #[trigger] values_model(out@)[j]
                            == (values_model(o1) + tail)[j] by {
                            if j >= o1.len() {
                                assert(out@[j] == r0[(j - o1.len()) + 1]);
                                assert(its[n + ((j - o1.len()) + 1)] == value_model(r0[(j - o1.len()) + 1]));
                            } else {
                                assert(out@[j] == o1[j]);
                            }
                        }
                    }
                    assert(o0 + (seq![pv@] + tail) =~= o0.push(pv@) + tail);
                }
                return Err((h, out));
            },
            Ok(m) => {
                proof {
                    crate::value::lemma_values_model_push(out@, m);
                }
                let ghost mm = m@;
                out.push(m);
                proof {
                    match resolved_items(its, n + 1, base@, files@, envm, depth as int) {
                        Ok(tail) => {
                            assert(o0 + (seq![mm] + tail) =~= o0.push(mm) + tail);
                        },
                        Err(_) => {},
                    }
                    let pt = partial_items(its, n + 1, base@, files@, envm, depth as int);
                    assert(o0 + (seq![mm] + pt) =~= o0.push(mm) + pt);
                }
            },
        }
        n = n + 1;
    }
    assert(values_model(out@) + Seq::<Node>::empty() =~= values_model(out@));
    Ok(out)
}

/// Resolve the `extends` and `include` directives throughout `value`, whose
/// file lies in directory `base_dir`, with the sources in `files` and the
/// environment `env` for the `${NAME}` references in them.
///
/// On success `value` holds the resolved configuration. When resolution
/// stops, `value` holds what it got as far as (see `partial`); a run with a
/// file it asks for added to `files` starts again from the unresolved value.
pub fn resolve(
    value: &mut Value,
    base_dir: &String,
    files: &Vec<Loaded>,
    env: &Vec<(String, String)>,
) -> (r: Result<(), Halt>)
    ensures
        match resolved(old(value)@, base_dir@, files@, env_model(env@), 0) {
            Ok(n) => r is Ok && final(value)@ == n,
            Err(h) => r matches Err(e) && halt_agrees(e, h) && final(value)@ == partial(
                old(value)@,
                base_dir@,
                files@,
                env_model(env@),
                0,
            ),
        },
{
    let mut v = Value::null();
    std::mem::swap(&mut v, value);
    match resolve_value(v, base_dir, files, env, 0) {
        Ok(w) => {
            *value = w;
            Ok(())
        },
        Err((h, p)) => {
            *value = p;
            Err(h)
        },
    }
}

/// No object anywhere in the value has an `extends` or `include` key.
pub open spec fn directive_free(n: Node) -> bool
    decreases n,
{
    match n.shape {
        Shape::Object(es) => find_key(es, "extends"@) is None && find_key(es, "include"@) is None
            && forall|i: int| 0 <= i < es.len() ==> directive_free(#[trigger] es[i].1),
        Shape::Array(items) => forall|i: int| 0 <= i < items.len() ==> directive_free(#[trigger] items[i]),
        _ => true,
    }
}

/// A value without directives whose objects have distinct keys resolves to
/// itself, whatever the sources and at any depth within the limit.
pub proof fn lemma_resolve_without_directives(
    n: Node,
    base: Seq<char>,
    files: Seq<Loaded>,
    env: Seq<(Seq<char>, Seq<char>)>,
    depth: int,
)
    requires
        well_keyed(n),
        directive_free(n),
        0 <= depth <= MAX_DEPTH,
    ensures
        resolved(n, base, files, env, depth) == Ok::<Node, HaltModel>(n),
    decreases n, 1int,
{
    match n.shape {
        Shape::Object(es) => {
            lemma_entries_without_directives(es, 0, base, files, env, depth);
            assert(es.subrange(0, es.len() as int) =~= es);
            lemma_merged_entries_into_empty(es);
        },
        Shape::Array(items) => {
            lemma_items_without_directives(items, 0, base, files, env, depth);
            assert(items.subrange(0, items.len() as int) =~= items);
        },
        _ => {},
    }
}

proof fn lemma_entries_without_directives(
    es: Seq<(Seq<char>, Node)>,
    i: int,
    base: Seq<char>,
    files: Seq<Loaded>,
    env: Seq<(Seq<char>, Seq<char>)>,
    depth: int,
)
    requires
        forall|j: int| 0 <= j < es.len() ==> well_keyed(#[trigger] es[j].1),
        forall|j: int| 0 <= j < es.len() ==> directive_free(#[trigger] es[j].1),
        0 <= i <= es.len(),
        0 <= depth <= MAX_DEPTH,
    ensures
        resolved_entries(es, i, None, None, base, files, env, depth) == Ok::<
            Seq<(Seq<char>, Node)>,
            HaltModel,
        >(es.subrange(i, es.len() as int)),
    decreases es, es.len() - i,
{
    if i < es.len() {
        lemma_resolve_without_directives(es[i].1, base, files, env, depth);
        lemma_entries_without_directives(es, i + 1, base, files, env, depth);
        assert(seq![(es[i].0, es[i].1)] + es.subrange(i + 1, es.len() as int) =~= es.subrange(
            i,
            es.len() as int,
        ));
    } else {
        assert(es.subrange(i, es.len() as int) =~= Seq::empty());
    }
}

proof fn lemma_items_without_directives(
    items: Seq<Node>,
    i: int,
    base: Seq<char>,
    files: Seq<Loaded>,
    env: Seq<(Seq<char>, Seq<char>)>,
    depth: int,
)
    requires
        forall|j: int| 0 <= j < items.len() ==> well_keyed(#[trigger] items[j]),
        forall|j: int| 0 <= j < items.len() ==> directive_free(#[trigger] items[j]),
        0 <= i <= items.len(),
        0 <= depth <= MAX_DEPTH,
    ensures
        resolved_items(items, i, base, files, env, depth) == Ok::<Seq<Node>, HaltModel>(
            items.subrange(i, items.len() as int),
        ),
    decreases items, items.len() - i,
{
    if i < items.len() {
        lemma_resolve_without_directives(items[i], base, files, env, depth);
        lemma_items_without_directives(items, i + 1, base, files, env, depth);
        assert(seq![items[i]] + items.subrange(i + 1, items.len() as int) =~= items.subrange(
            i,
            items.len() as int,
        ));
    } else {
        assert(items.subrange(i, items.len() as int) =~= Seq::empty());
    }
}

/// No entry has a directive's key, and every value is free of directives.
pub open spec fn entries_directive_free(es: Seq<(Seq<char>, Node)>) -> bool {
    &&& forall|i: int| 0 <= i < es.len() ==> #[trigger] es[i].0 != "extends"@ && es[i].0 != "include"@
    &&& forall|i: int| 0 <= i < es.len() ==> directive_free(#[trigger] es[i].1)
}

proof fn lemma_object_directive_free(n: Node, es: Seq<(Seq<char>, Node)>)
    requires
        n.shape == Shape::Object(es),
    ensures
        directive_free(n) <==> entries_directive_free(es),
{
    crate::value::lemma_find_key(es, "extends"@);
    crate::value::lemma_find_key(es, "include"@);
}

/// Merging two values free of directives gives a value free of directives.
proof fn lemma_merged_directive_free(b: Node, o: Node)
    requires
        directive_free(b),
        directive_free(o),
    ensures
        directive_free(crate::merge::merged(b, o)),
    decreases o,
{
    match b.shape {
        Shape::Object(be) => match o.shape {
            Shape::Object(oe) => {
                lemma_object_directive_free(b, be);
                lemma_object_directive_free(o, oe);
                lemma_merged_entries_directive_free(be, oe);
                lemma_object_directive_free(crate::merge::merged(b, o), merged_entries(be, oe));
            },
            _ => {},
        },
        _ => {},
    }
}

proof fn lemma_merged_entries_directive_free(be: Seq<(Seq<char>, Node)>, oe: Seq<(Seq<char>, Node)>)
    requires
        entries_directive_free(be),
        entries_directive_free(oe),
    ensures
        entries_directive_free(merged_entries(be, oe)),
    decreases oe,
{
    if oe.len() > 0 {
        let prev = oe.drop_last();
        assert(entries_directive_free(prev)) by {
            assert forall|i: int| 0 <= i < prev.len() implies #[trigger] prev[i] == oe[i] by {}
        }
        lemma_merged_entries_directive_free(be, prev);
        let acc = merged_entries(be, prev);
        let k = oe.last().0;
        let v = oe.last().1;
        assert(directive_free(v));
        crate::value::lemma_find_key(acc, k);
        match find_key(acc, k) {
            Some(i) => {
                lemma_merged_directive_free(acc[i].1, v);
                let r = acc.update(i, (k, crate::merge::merged(acc[i].1, v)));
                assert forall|j: int| 0 <= j < r.len() implies directive_free(#[trigger] r[j].1) by {
                    if j != i {
                        assert(r[j] == acc[j]);
                    }
                }
            },
            None => {
                let r = acc.push((k, v));
                assert forall|j: int| 0 <= j < r.len() implies directive_free(#[trigger] r[j].1) by {
                    if j < acc.len() {
                        assert(r[j] == acc[j]);
                    }
                }
            },
        }
    }
}

/// Resolution leaves no directive behind: when a value whose objects have
/// distinct keys resolves, no object anywhere in the result, nor in the
/// files it drew on, keeps an `extends` or `include` key.
pub proof fn lemma_resolved_directive_free(
    n: Node,
    base: Seq<char>,
    files: Seq<Loaded>,
    env: Seq<(Seq<char>, Seq<char>)>,
    depth: int,
)
    requires
        well_keyed(n),
        resolved(n, base, files, env, depth) is Ok,
    ensures
        directive_free(resolved(n, base, files, env, depth)->Ok_0),
    decreases 11 - depth, n, 2int,
{
    if depth <= MAX_DEPTH {
        match n.shape {
            Shape::Object(es) => {
                let ie = find_key(es, "extends"@);
                let im = find_key(es, "include"@);
                lemma_resolved_entries_directive_free(es, 0, base, files, env, depth);
                let local = resolved_entries(es, 0, ie, im, base, files, env, depth)->Ok_0;
                lemma_layer_directive_free(n, directive(es, ie), "Extends"@, base, files, env, depth);
                lemma_layer_directive_free(n, directive(es, im), "Include"@, base, files, env, depth);
                let be = layer(n, directive(es, ie), "Extends"@, base, files, env, depth)->Ok_0;
                let me = layer(n, directive(es, im), "Include"@, base, files, env, depth)->Ok_0;
                lemma_merged_entries_directive_free(be, me);
                lemma_merged_entries_directive_free(merged_entries(be, me), local);
                lemma_object_directive_free(
                    resolved(n, base, files, env, depth)->Ok_0,
                    merged_entries(merged_entries(be, me), local),
                );
            },
            Shape::Array(items) => {
                lemma_resolved_items_directive_free(items, 0, base, files, env, depth);
            },
            _ => {},
        }
    }
}

proof fn lemma_resolved_entries_directive_free(
    es: Seq<(Seq<char>, Node)>,
    i: int,
    base: Seq<char>,
    files: Seq<Loaded>,
    env: Seq<(Seq<char>, Seq<char>)>,
    depth: int,
)
    requires
        distinct_keys(es),
        forall|j: int| 0 <= j < es.len() ==> well_keyed(#[trigger] es[j].1),
        resolved_entries(es, i, find_key(es, "extends"@), find_key(es, "include"@), base, files, env, depth) is Ok,
    ensures
        entries_directive_free(
            resolved_entries(es, i, find_key(es, "extends"@), find_key(es, "include"@), base, files, env, depth)->Ok_0,
        ),
    decreases 11 - depth, es, es.len() - i,
{
    let ie = find_key(es, "extends"@);
    let im = find_key(es, "include"@);
    if 0 <= i < es.len() {
        if ie == Some(i) || im == Some(i) {
            lemma_resolved_entries_directive_free(es, i + 1, base, files, env, depth);
        } else {
            crate::merge::lemma_find_key_distinct(es, i);
            assert(es[i].0 != "extends"@);
            assert(es[i].0 != "include"@);
            lemma_resolved_directive_free(es[i].1, base, files, env, depth);
            lemma_resolved_entries_directive_free(es, i + 1, base, files, env, depth);
            let m = resolved(es[i].1, base, files, env, depth)->Ok_0;
            let rest = resolved_entries(es, i + 1, ie, im, base, files, env, depth)->Ok_0;
            let r = seq![(es[i].0, m)] + rest;
            assert forall|j: int| 0 <= j < r.len() implies #[trigger] r[j].0 != "extends"@ && r[j].0
                != "include"@ && directive_free(r[j].1) by {
                if j > 0 {
                    assert(r[j] == rest[j - 1]);
                }
            }
        }
    }
}

proof fn lemma_resolved_items_directive_free(
    items: Seq<Node>,
    i: int,
    base: Seq<char>,
    files: Seq<Loaded>,
    env: Seq<(Seq<char>, Seq<char>)>,
    depth: int,
)
    requires
        forall|j: int| 0 <= j < items.len() ==> well_keyed(#[trigger] items[j]),
        resolved_items(items, i, base, files, env, depth) is Ok,
    ensures
        forall|j: int|
            0 <= j < resolved_items(items, i, base, files, env, depth)->Ok_0.len() ==> directive_free(
                #[trigger] resolved_items(items, i, base, files, env, depth)->Ok_0[j],
            ),
    decreases 11 - depth, items, items.len() - i,
{
    if 0 <= i < items.len() {
        lemma_resolved_directive_free(items[i], base, files, env, depth);
        lemma_resolved_items_directive_free(items, i + 1, base, files, env, depth);
        let m = resolved(items[i], base, files, env, depth)->Ok_0;
        let rest = resolved_items(items, i + 1, base, files, env, depth)->Ok_0;
        let r = seq![m] + rest;
        assert forall|j: int| 0 <= j < r.len() implies directive_free(#[trigger] r[j]) by {
            if j > 0 {
                assert(r[j] == rest[j - 1]);
            }
        }
    }
}

proof fn lemma_layer_directive_free(
    owner: Node,
    d: Option<Node>,
    what: Seq<char>,
    base: Seq<char>,
    files: Seq<Loaded>,
    env: Seq<(Seq<char>, Seq<char>)>,
    depth: int,
)
    requires
        layer(owner, d, what, base, files, env, depth) is Ok,
    ensures
        entries_directive_free(layer(owner, d, what, base, files, env, depth)->Ok_0),
    decreases 11 - depth, owner, 1int,
{
    if let Some(dv) = d {
        if let Shape::Str(p) = dv.shape {
            if depth < MAX_DEPTH + 1 {
                if let Some(j) = find_source(files, base, p) {
                    crate::syntax::parser::lemma_read_well_keyed(files[j].content@, env);
                    if let ReadOutcome::Parsed(m) = read_text(files[j].content@, env) {
                        lemma_resolved_directive_free(m, files[j].dir@, files, env, depth + 1);
                        let r = resolved(m, files[j].dir@, files, env, depth + 1)->Ok_0;
                        if let Shape::Object(res) = r.shape {
                            lemma_object_directive_free(r, res);
                        }
                    }
                }
            }
        }
    }
}

/// A file that a directive names is resolved from the directory it lies in,
/// one level deeper: an object whose one entry is an `extends` or `include`
/// directive resolves as the named file's contents resolve from that file's
/// own directory. A halt there, such as a request for a further file looked
/// up from that directory, is the halt of the whole; an object there gives
/// the entries of the result (`extends` as they are, `include` merged into
/// an empty object).
pub proof fn lemma_named_file_resolved_from_its_directory(
    n: Node,
    k: Seq<char>,
    d: Node,
    p: Seq<char>,
    base: Seq<char>,
    files: Seq<Loaded>,
    env: Seq<(Seq<char>, Seq<char>)>,
    j: int,
    m: Node,
)
    requires
        k == "extends"@ || k == "include"@,
        n.shape == Shape::Object(seq![(k, d)]),
        d.shape == Shape::Str(p),
        find_source(files, base, p) == Some(j),
        read_text(files[j].content@, env) == ReadOutcome::Parsed(m),
    ensures
        match resolved(m, files[j].dir@, files, env, 1) {
            Err(h) => resolved(n, base, files, env, 0) == Err::<Node, HaltModel>(h),
            Ok(r) => r.shape is Object ==> resolved(n, base, files, env, 0) == Ok::<Node, HaltModel>(
                Node {
                    shape: Shape::Object(
                        if k == "extends"@ {
                            r.shape->Object_0
                        } else {
                            merged_entries(Seq::empty(), r.shape->Object_0)
                        },
                    ),
                    comments: n.comments,
                },
            ),
        },
{
    reveal_strlit("extends");
    reveal_strlit("include");
    assert("extends"@[0] == 'e' && "include"@[0] == 'i');
    let es = seq![(k, d)];
    crate::value::lemma_find_key(es, "extends"@);
    crate::value::lemma_find_key(es, "include"@);
    let ie = find_key(es, "extends"@);
    let im = find_key(es, "include"@);
    if k == "extends"@ {
        assert(ie == Some(0int));
        assert(im is None);
    } else {
        assert(im == Some(0int));
        assert(ie is None);
    }
    assert(resolved_entries(es, 1, ie, im, base, files, env, 0) == Ok::<Seq<(Seq<char>, Node)>, HaltModel>(
        Seq::empty(),
    ));
    assert(resolved_entries(es, 0, ie, im, base, files, env, 0) == Ok::<Seq<(Seq<char>, Node)>, HaltModel>(
        Seq::empty(),
    ));
    assert(layer(n, None, "Extends"@, base, files, env, 0) == Ok::<Seq<(Seq<char>, Node)>, HaltModel>(
        Seq::empty(),
    ));
    assert(layer(n, None, "Include"@, base, files, env, 0) == Ok::<Seq<(Seq<char>, Node)>, HaltModel>(
        Seq::empty(),
    ));
}

/// How a resolved object's layers combine, key by key: the mixin over the
/// base, and the object's own entries over both.
pub proof fn lemma_layer_precedence(
    base: Seq<(Seq<char>, Node)>,
    mixin: Seq<(Seq<char>, Node)>,
    local: Seq<(Seq<char>, Node)>,
)
    requires
        distinct_keys(base),
        distinct_keys(mixin),
        distinct_keys(local),
    ensures
        forall|key: Seq<char>|
            #[trigger] lookup(merged_entries(merged_entries(base, mixin), local), key) == merged_lookup(
                merged_lookup(lookup(base, key), lookup(mixin, key)),
                lookup(local, key),
            ),
{
    lemma_merged_entries(base, mixin);
    lemma_merged_entries(merged_entries(base, mixin), local);
}

} // verus!
