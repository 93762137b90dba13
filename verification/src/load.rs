//! Loading several configuration sources into one value.
use vstd::prelude::*;
use crate::value::{Node, Shape, Value, ObjectMap};
use crate::error::{CosynError, located_text};
use crate::merge::{merged, merge, merged_entries, lookup, merged_lookup, lemma_merged_entries,
    lemma_merged_entries_into_empty};
use crate::value::distinct_keys;
use crate::inclusion::{Loaded, Halt, HaltModel, resolved, resolve, copy_env};
use crate::syntax::lexer::env_model;
use crate::syntax::parser::{ReadOutcome, read_text, read_agrees, from_str_with_env};

verus! {

/// Where loading stopped short of a result.
#[derive(Debug, Clone, PartialEq)]
pub enum LoadHalt {
    /// The table of sources has no entry for `path` looked up from `base_dir`.
    NeedsFile { base_dir: String, path: String },
    /// Loading failed.
    Failed(CosynError),
}

/// Mathematical model of a load halt.
pub enum LoadHaltModel {
    NeedsFile(Seq<char>, Seq<char>),
    Unreadable(ReadOutcome),
    Inclusion(Seq<char>),
}

pub open spec fn load_halt_agrees(h: LoadHalt, m: LoadHaltModel) -> bool {
    match m {
        LoadHaltModel::NeedsFile(b, p) => h matches LoadHalt::NeedsFile { base_dir, path }
            && base_dir@ == b && path@ == p,
        LoadHaltModel::Unreadable(o) => h matches LoadHalt::Failed(c) && read_agrees(Err(c), o),
        LoadHaltModel::Inclusion(t) => h matches LoadHalt::Failed(CosynError::Include(s)) && s@
            == t,
    }
}

/// The text of the error that a failed read reports.
pub open spec fn read_error_text(o: ReadOutcome) -> Seq<char> {
    match o {
        ReadOutcome::LexFailed(m, l, c) => located_text("Lex error"@, l as nat, c as nat, m),
        ReadOutcome::ParseFailed(m, l, c) => located_text("Parse error"@, l as nat, c as nat, m),
        ReadOutcome::Parsed(_) => Seq::empty(),
    }
}

/// The text of the inclusion error behind a halt.
pub open spec fn halt_text(h: HaltModel) -> Seq<char> {
    match h {
        HaltModel::NeedsFile(_, _) => Seq::empty(),
        HaltModel::Depth => "Recursion limit exceeded (max 10 depth)"@,
        HaltModel::Target(m) => "Invalid include usage: "@ + m,
        HaltModel::Unreadable(o) => "Parse error in included file: "@ + read_error_text(o),
    }
}

/// One source read and resolved: its text `content`, its directory `dir`.
pub open spec fn loaded_source(
    content: Seq<char>,
    dir: Seq<char>,
    files: Seq<Loaded>,
    env: Seq<(Seq<char>, Seq<char>)>,
) -> Result<Node, LoadHaltModel> {
    match read_text(content, env) {
        ReadOutcome::Parsed(n) => match resolved(n, dir, files, env, 0) {
            Ok(r) => Ok(r),
            Err(HaltModel::NeedsFile(b, p)) => Err(LoadHaltModel::NeedsFile(b, p)),
            Err(h) => Err(LoadHaltModel::Inclusion(halt_text(h))),
        },
        o => Err(LoadHaltModel::Unreadable(o)),
    }
}

/// `acc` with the sources from position `i` on merged into it, in order.
pub open spec fn loaded_from(
    sources: Seq<(String, String)>,
    i: int,
    acc: Node,
    files: Seq<Loaded>,
    env: Seq<(Seq<char>, Seq<char>)>,
) -> Result<Node, LoadHaltModel>
    decreases sources.len() - i,
{
    if i < 0 || i >= sources.len() {
        Ok(acc)
    } else {
        match loaded_source(sources[i].0@, sources[i].1@, files, env) {
            Err(h) => Err(h),
            Ok(n) => loaded_from(sources, i + 1, merged(acc, n), files, env),
        }
    }
}

/// The empty object.
pub open spec fn empty_object() -> Node {
    Node { shape: Shape::Object(Seq::empty()), comments: Seq::empty() }
}

/// Load and merge several configuration sources.
///
/// Each source is a text and the directory of its file. The sources are read
/// and resolved in order, each merged over the ones before, starting from an
/// empty object; later sources override earlier ones.
pub fn load_and_merge(
    sources: &Vec<(String, String)>,
    files: &Vec<Loaded>,
    env: &Vec<(String, String)>,
) -> (r: Result<Value, LoadHalt>)
    ensures
        match loaded_from(sources@, 0, empty_object(), files@, env_model(env@)) {
            Ok(n) => r matches Ok(v) && v@ == n,
            Err(h) => r matches Err(e) && load_halt_agrees(e, h),
        },
{
    let ghost envm = env_model(env@);
    let mut acc = Value::object(ObjectMap::new());
    let mut k: usize = 0;
    while k < sources.len()
        invariant
            0 <= k <= sources.len(),
            loaded_from(sources@, 0, empty_object(), files@, envm) == loaded_from(
                sources@,
                k as int,
                acc@,
                files@,
                envm,
            ),
            envm == env_model(env@),
        decreases sources.len() - k,
    {
        let mut current = match from_str_with_env(sources[k].0.as_str(), copy_env(env)) {
            Ok(v) => v,
            Err(c) => {
                return Err(LoadHalt::Failed(c));
            },
        };
        match resolve(&mut current, &sources[k].1, files, env) {
            Ok(()) => {},
            Err(Halt::NeedsFile { base_dir, path }) => {
                return Err(LoadHalt::NeedsFile { base_dir, path });
            },
            Err(Halt::Failed(e)) => {
                proof {
                    reveal_strlit("Parse error in included file: ");
                }
                return Err(LoadHalt::Failed(CosynError::Include(e.to_string())));
            },
        }
        merge(&mut acc, current);
        k = k + 1;
    }
    Ok(acc)
}

/// Later sources override earlier ones: loading two sources that read as
/// objects gives an object in which each key holds what merging makes of
/// the first source's value and the second's.
pub proof fn lemma_later_source_overrides(
    sources: Seq<(String, String)>,
    files: Seq<Loaded>,
    env: Seq<(Seq<char>, Seq<char>)>,
    first: Seq<(Seq<char>, Node)>,
    second: Seq<(Seq<char>, Node)>,
)
    requires
        sources.len() == 2,
        loaded_source(sources[0].0@, sources[0].1@, files, env) matches Ok(n) && n.shape == Shape::Object(first),
        loaded_source(sources[1].0@, sources[1].1@, files, env) matches Ok(n) && n.shape == Shape::Object(second),
        distinct_keys(first),
        distinct_keys(second),
    ensures
        loaded_from(sources, 0, empty_object(), files, env) matches Ok(r) && r.shape == Shape::Object(
            merged_entries(first, second),
        ),
        forall|key: Seq<char>|
            #[trigger] lookup(merged_entries(first, second), key) == merged_lookup(
                lookup(first, key),
                lookup(second, key),
            ),
{
    lemma_merged_entries_into_empty(first);
    lemma_merged_entries(first, second);
    let n1 = loaded_source(sources[0].0@, sources[0].1@, files, env)->Ok_0;
    let n2 = loaded_source(sources[1].0@, sources[1].1@, files, env)->Ok_0;
    let a1 = merged(empty_object(), n1);
    assert(a1.shape == Shape::Object(first));
    let a2 = merged(a1, n2);
    assert(a2.shape == Shape::Object(merged_entries(first, second)));
    assert(loaded_from(sources, 2, a2, files, env) == Ok::<Node, LoadHaltModel>(a2));
    assert(loaded_from(sources, 1, a1, files, env) == loaded_from(sources, 2, a2, files, env));
    assert(loaded_from(sources, 0, empty_object(), files, env) == loaded_from(sources, 1, a1, files, env));
}

} // verus!
