//! Synchronization with the tree of recipes: the mirror, the architectures
//! that a change touches, the recipes found and what is recorded of it all.

use vstd::prelude::*;
use vstd::string::*;

use crate::config::{Config, ConfigModel};
use crate::db::{
    log_sync_at, meta_get, meta_set, now, rebuild_packages, recipe_table, sync_key, tables_ordered,
    with_sync, Database, DatabaseModel,
};
use crate::digest::{hex_text, is_hex_text};
use crate::digits::{decimal, decimal_text};
use crate::list::{find_first, first_where, keep_list, lemma_first_where, map_list};
use crate::model::{canonical, canonical_arch, Package, PackageModel};
use crate::order::{
    lemma_sort_ascends, lemma_sort_permutes, sort_list, sorted_set, stable_sort, text_set,
    total_preorder,
};
use crate::path::{
    below, components, components_of, file_name, file_name_of, parent, parent_of, path_join,
};
use crate::records::{RecipeRecord, RecipeRecordModel, SyncEntryModel};
use crate::split::{
    first_word, first_word_of, join, join_with, lines, lines_of, split_on, trim, trimmed,
};
use crate::table::{entry_at, lemma_put, lemma_text_set, lemma_text_set_empty, put_entry};
use crate::text::{
    concat, int_order, joined, lemma_text_order_flip, lemma_text_order_same,
    lemma_text_order_transitive, lemma_texts_order_flip, lemma_texts_order_same,
    lemma_texts_order_transitive, order_text, order_texts, order_u64, same_text, text_from,
    text_order, texts_order, Side,
};

verus! {

// ---------------------------------------------------------------------------
// The mirror
// ---------------------------------------------------------------------------

/// A call of Git.
#[derive(Debug)]
pub struct Command {
    /// The directory to call it in.
    pub dir: String,
    /// Whether that directory has to be made first.
    pub make_dir: bool,
    pub args: Vec<String>,
}

#[verifier::ext_equal]
pub struct CommandModel {
    pub dir: Seq<char>,
    pub make_dir: bool,
    pub args: Seq<Seq<char>>,
}

impl DeepView for Command {
    type V = CommandModel;

    open spec fn deep_view(&self) -> CommandModel {
        CommandModel {
            dir: self.dir@,
            make_dir: self.make_dir,
            args: self.args.deep_view(),
        }
    }
}

/// What a mirror that is being brought up to date waits for.
#[derive(Clone, Copy, Debug, PartialEq, Eq, Structural)]
pub enum MirrorStep {
    /// The new commits.
    Fetch,
    /// The name of the remote's main branch.
    Branch,
    /// The files of that branch.
    Reset,
    /// A first copy.
    Clone,
    /// The commit that the mirror is at.
    Head,
}

/// What to do next for a mirror.
#[derive(Debug)]
pub enum MirrorAction {
    /// Call Git and hand the result to the given step.
    Run(Command, MirrorStep),
    /// The mirror is at this commit.
    Done(String),
    Fail(String),
}

pub enum MirrorActionModel {
    Run(CommandModel, MirrorStep),
    Done(Seq<char>),
    Fail(Seq<char>),
}

impl DeepView for MirrorAction {
    type V = MirrorActionModel;

    open spec fn deep_view(&self) -> MirrorActionModel {
        match self {
            MirrorAction::Run(command, step) => MirrorActionModel::Run(command.deep_view(), *step),
            MirrorAction::Done(commit) => MirrorActionModel::Done(commit@),
            MirrorAction::Fail(e) => MirrorActionModel::Fail(e@),
        }
    }
}

pub open spec fn git(dir: Seq<char>, args: Seq<Seq<char>>) -> CommandModel {
    CommandModel { dir, make_dir: false, args }
}

fn git_call(dir: &str, args: &Vec<&str>) -> (r: Command)
    ensures
        r.deep_view() == git(dir@, args.deep_view()),
{
    Command { dir: dir.to_owned(), make_dir: false, args: owned(args) }
}

/// The same texts, owned.
fn owned(texts: &Vec<&str>) -> (r: Vec<String>)
    ensures
        r.deep_view() == texts.deep_view(),
{
    let ghost want = texts.deep_view();
    let mut out: Vec<String> = Vec::new();
    let mut i: usize = 0;
    assert(out.deep_view() =~= want.take(0));
    while i < texts.len()
        invariant
            want == texts.deep_view(),
            i <= texts.len(),
            out.deep_view() == want.take(i as int),
        decreases texts.len() - i,
    {
        let ghost before = out.deep_view();
        out.push(texts[i].to_owned());
        assert(out.deep_view() =~= before.push(texts@[i as int]@));
        assert(want.take(i as int).push(want[i as int]) =~= want.take(i + 1));
        i += 1;
    }
    assert(want.take(i as int) =~= want);
    out
}

/// The name of the directory of a mirror.
pub open spec fn mirror_name(git_dir: Seq<char>) -> Seq<char> {
    match file_name_of(git_dir) {
        Some(name) => name,
        None => "mirror"@,
    }
}

/// How a mirror at `git_dir` is begun: with a fetch where there is one, with
/// a shallow clone beside it where there is none.
pub open spec fn mirror_begun(git_url: Seq<char>, git_dir: Seq<char>, exists: bool) -> MirrorActionModel {
    if exists {
        MirrorActionModel::Run(
            git(git_dir, seq!["fetch"@, "origin"@, "--prune"@]),
            MirrorStep::Fetch,
        )
    } else {
        match parent_of(git_dir) {
            None => MirrorActionModel::Fail("git mirror has no parent"@),
            Some(dir) => MirrorActionModel::Run(
                CommandModel {
                    dir,
                    make_dir: true,
                    args: seq![
                        "clone"@,
                        "--depth"@,
                        "1"@,
                        git_url,
                        mirror_name(git_dir),
                    ],
                },
                MirrorStep::Clone,
            ),
        }
    }
}

/// Begins to bring the mirror at `git_dir` up to date; `exists` tells whether
/// there is one.
pub fn update_mirror(git_url: &str, git_dir: &str, exists: bool) -> (r: MirrorAction)
    ensures
        r.deep_view() == mirror_begun(git_url@, git_dir@, exists),
{
    if exists {
        let args: Vec<&str> = vec!["fetch", "origin", "--prune"];
        assert(args.deep_view() =~= seq!["fetch"@, "origin"@, "--prune"@]);
        return MirrorAction::Run(git_call(git_dir, &args), MirrorStep::Fetch);
    }
    match parent(git_dir) {
        None => MirrorAction::Fail("git mirror has no parent".to_owned()),
        Some(dir) => {
            let name = match file_name(git_dir) {
                Some(name) => name,
                None => "mirror".to_owned(),
            };
            let args: Vec<&str> = vec!["clone", "--depth", "1", git_url, name.as_str()];
            assert(args.deep_view() =~= seq!["clone"@, "--depth"@, "1"@, git_url@, name@]);
            let command = Command { dir, make_dir: true, args: owned(&args) };
            assert(command.deep_view().args =~= seq![
                "clone"@, "--depth"@, "1"@, git_url@, mirror_name(git_dir@),
            ]);
            MirrorAction::Run(command, MirrorStep::Clone)
        },
    }
}

/// The branch to follow: what Git names, or `origin/main` where it names none.
pub open spec fn branch_of(answer: Result<Seq<char>, Seq<char>>) -> Seq<char> {
    match answer {
        Ok(name) => if trimmed(name).len() > 0 {
            trimmed(name)
        } else {
            "origin/main"@
        },
        Err(_) => "origin/main"@,
    }
}

pub open spec fn read_head(git_dir: Seq<char>) -> MirrorActionModel {
    MirrorActionModel::Run(git(git_dir, seq!["rev-parse"@, "HEAD"@]), MirrorStep::Head)
}

/// How a mirror goes on after Git's answer to a step.
pub open spec fn mirror_next(
    git_dir: Seq<char>,
    step: MirrorStep,
    answer: Result<Seq<char>, Seq<char>>,
) -> MirrorActionModel {
    match (step, answer) {
        (MirrorStep::Branch, _) => MirrorActionModel::Run(
            git(git_dir, seq!["reset"@, "--hard"@, branch_of(answer)]),
            MirrorStep::Reset,
        ),
        (_, Err(e)) => MirrorActionModel::Fail(e),
        (MirrorStep::Fetch, Ok(_)) => MirrorActionModel::Run(
            git(git_dir, seq!["symbolic-ref"@, "refs/remotes/origin/HEAD"@]),
            MirrorStep::Branch,
        ),
        (MirrorStep::Reset, Ok(_)) => read_head(git_dir),
        (MirrorStep::Clone, Ok(_)) => read_head(git_dir),
        (MirrorStep::Head, Ok(commit)) => MirrorActionModel::Done(trimmed(commit)),
    }
}

pub open spec fn answer_view(answer: Result<&str, &str>) -> Result<Seq<char>, Seq<char>> {
    match answer {
        Ok(text) => Ok(text@),
        Err(e) => Err(e@),
    }
}

/// Goes on after Git's answer to a step.
pub fn continue_mirror(git_dir: &str, step: MirrorStep, answer: Result<&str, &str>) -> (r:
    MirrorAction)
    ensures
        r.deep_view() == mirror_next(git_dir@, step, answer_view(answer)),
{
    if let MirrorStep::Branch = step {
        let branch: &str = match answer {
            Ok(name) => {
                let cut = trim(name);
                if cut.is_empty() {
                    "origin/main"
                } else {
                    cut
                }
            },
            Err(_) => "origin/main",
        };
        let args: Vec<&str> = vec!["reset", "--hard", branch];
        assert(args.deep_view() =~= seq!["reset"@, "--hard"@, branch_of(answer_view(answer))]);
        return MirrorAction::Run(git_call(git_dir, &args), MirrorStep::Reset);
    }
    let text = match answer {
        Ok(text) => text,
        Err(e) => {
            return MirrorAction::Fail(e.to_owned());
        },
    };
    match step {
        MirrorStep::Fetch => {
            let args: Vec<&str> = vec!["symbolic-ref", "refs/remotes/origin/HEAD"];
            assert(args.deep_view() =~= seq!["symbolic-ref"@, "refs/remotes/origin/HEAD"@]);
            MirrorAction::Run(git_call(git_dir, &args), MirrorStep::Branch)
        },
        MirrorStep::Head => MirrorAction::Done(trim(text).to_owned()),
        _ => {
            let args: Vec<&str> = vec!["rev-parse", "HEAD"];
            assert(args.deep_view() =~= seq!["rev-parse"@, "HEAD"@]);
            MirrorAction::Run(git_call(git_dir, &args), MirrorStep::Head)
        },
    }
}

/// The call that asks a remote for the commit of its main branch.
pub fn remote_head_command(git_url: &str) -> (r: Command)
    ensures
        r.deep_view() == git("."@, seq!["ls-remote"@, git_url@, "refs/heads/main"@]),
{
    let args: Vec<&str> = vec!["ls-remote", git_url, "refs/heads/main"];
    assert(args.deep_view() =~= seq!["ls-remote"@, git_url@, "refs/heads/main"@]);
    git_call(".", &args)
}

/// The commit that a remote named: the first word of its answer.
pub fn remote_head(answer: &str) -> (r: Result<String, String>)
    ensures
        match r {
            Ok(commit) => first_word_of(answer@) == Some(commit@),
            Err(e) => first_word_of(answer@) is None && e@ == "ls-remote produced no SHA"@,
        },
{
    match first_word(answer) {
        Some(commit) => Ok(commit),
        None => Err("ls-remote produced no SHA".to_owned()),
    }
}

// ---------------------------------------------------------------------------
// Changed architectures
// ---------------------------------------------------------------------------

/// The names of architectures in paths.
pub open spec fn arch_names() -> Seq<Seq<char>> {
    seq![
        "amd64"@,
        "x86_64"@,
        "aarch64"@,
        "arm64"@,
        "armv7"@,
        "arm"@,
        "armhf"@,
        "armv7l"@,
        "riscv64"@,
        "any"@,
        "noarch"@,
    ]
}

/// Whether a component of a path names an architecture.
pub fn names_arch(component: &String) -> (r: bool)
    ensures
        r == arch_names().contains(component@),
{
    let names: Vec<&str> = vec![
        "amd64",
        "x86_64",
        "aarch64",
        "arm64",
        "armv7",
        "arm",
        "armhf",
        "armv7l",
        "riscv64",
        "any",
        "noarch",
    ];
    let ghost all = names.deep_view();
    assert(all =~= arch_names());
    let mut i: usize = 0;
    while i < names.len()
        invariant
            all == names.deep_view(),
            all == arch_names(),
            i <= names.len(),
            forall|j: int| 0 <= j < i ==> #[trigger] all[j] != component@,
        decreases names.len() - i,
    {
        assert(all[i as int] == names@[i as int]@);
        if same_text(names[i], component) {
            assert(arch_names()[i as int] == component@);
            return true;
        }
        i += 1;
    }
    false
}

/// The components of all the paths.
pub open spec fn all_components(paths: Seq<Seq<char>>) -> Seq<Seq<char>>
    decreases paths.len(),
{
    if paths.len() == 0 {
        Seq::empty()
    } else {
        all_components(paths.drop_last()) + components_of(paths.last())
    }
}

/// The architectures that paths, one on each line, name: canonical, in order
/// and each once.
pub open spec fn path_arches(paths: Seq<char>) -> Seq<Seq<char>> {
    text_set(
        all_components(lines_of(paths)).filter(
            |c: Seq<char>| arch_names().contains(c),
        ).map_values(|c: Seq<char>| canonical(c)),
    )
}

fn canonical_text(c: &String) -> (r: String)
    ensures
        r@ == canonical(c@),
{
    canonical_arch(c).to_owned()
}

/// The architectures that paths, one on each line, name.
pub fn arches_from_paths(paths: &str) -> (r: Vec<String>)
    ensures
        r.deep_view() == path_arches(paths@),
{
    let each = lines(paths);
    let ghost all = each.deep_view();
    let mut found: Vec<String> = Vec::new();
    let mut i: usize = 0;
    assert(all.take(0) =~= Seq::<Seq<char>>::empty());
    assert(found.deep_view() =~= Seq::<Seq<char>>::empty());
    while i < each.len()
        invariant
            all == each.deep_view(),
            i <= each.len(),
            found.deep_view() == all_components(all.take(i as int)),
        decreases each.len() - i,
    {
        assert(all.take(i + 1).drop_last() =~= all.take(i as int));
        let mut more = components(&each[i]);
        let ghost before = found.deep_view();
        let ghost m = more.deep_view();
        found.append(&mut more);
        assert(found.deep_view() =~= before + m);
        i += 1;
    }
    assert(all.take(i as int) =~= all);
    let named = keep_list(
        &found,
        names_arch,
        Ghost(|c: Seq<char>| arch_names().contains(c)),
    );
    let spelled = map_list(&named, canonical_text, Ghost(|c: Seq<char>| canonical(c)));
    sorted_set(&spelled)
}

/// The call that tells whether the mirror has `commit`; none where that is no
/// commit name.
pub fn commit_probe(git_dir: &str, commit: &str) -> (r: Option<Command>)
    ensures
        r.deep_view() == if is_hex_text(commit@, 40) {
            Some(git(git_dir@, seq!["cat-file"@, "-e"@, commit@ + "^{commit}"@]))
        } else {
            None
        },
{
    if !hex_text(commit, 40) {
        return None;
    }
    let name = joined(commit, "^{commit}");
    let args: Vec<&str> = vec!["cat-file", "-e", name.as_str()];
    assert(args.deep_view() =~= seq!["cat-file"@, "-e"@, commit@ + "^{commit}"@]);
    Some(git_call(git_dir, &args))
}

/// Whether the mirror has `commit`, where `found` is the answer to the probe.
pub fn commit_exists(commit: &str, found: bool) -> (r: bool)
    ensures
        r == (is_hex_text(commit@, 40) && found),
{
    hex_text(commit, 40) && found
}

/// The call that lists the changed paths: the difference to the previous
/// commit or, where the mirror does not have it, the whole tree. None where
/// the commit is the previous one.
pub open spec fn paths_call(
    git_dir: Seq<char>,
    previous: Option<Seq<char>>,
    current: Seq<char>,
    found: bool,
) -> Option<CommandModel> {
    if previous == Some(current) {
        None
    } else if previous is Some && is_hex_text(previous->0, 40) && found {
        Some(git(git_dir, seq!["diff"@, "--name-only"@, previous->0, current]))
    } else {
        Some(git(git_dir, seq!["ls-tree"@, "-r"@, "--name-only"@, current]))
    }
}

pub open spec fn opt_text(t: Option<&str>) -> Option<Seq<char>> {
    match t {
        Some(t) => Some(t@),
        None => None,
    }
}

/// The call that lists the changed paths.
pub fn changed_paths_command(
    git_dir: &str,
    previous: Option<&str>,
    current: &str,
    found: bool,
) -> (r: Option<Command>)
    ensures
        r.deep_view() == paths_call(git_dir@, opt_text(previous), current@, found),
{
    if let Some(old) = previous {
        if same_text(old, current) {
            return None;
        }
        if commit_exists(old, found) {
            let args: Vec<&str> = vec!["diff", "--name-only", old, current];
            assert(args.deep_view() =~= seq!["diff"@, "--name-only"@, old@, current@]);
            return Some(git_call(git_dir, &args));
        }
    }
    let args: Vec<&str> = vec!["ls-tree", "-r", "--name-only", current];
    assert(args.deep_view() =~= seq!["ls-tree"@, "-r"@, "--name-only"@, current@]);
    Some(git_call(git_dir, &args))
}

/// The architectures that a step from one commit to another touches, where
/// `paths` are the changed paths.
pub open spec fn touched(
    previous: Option<Seq<char>>,
    current: Seq<char>,
    paths: Seq<char>,
) -> Seq<Seq<char>> {
    if previous == Some(current) {
        path_arches(Seq::empty())
    } else {
        path_arches(paths)
    }
}

/// The architectures that a step from one commit to another touches.
pub fn changed_arches(previous: Option<&str>, current: &str, paths: &str) -> (r: Vec<String>)
    ensures
        r.deep_view() == touched(opt_text(previous), current@, paths@),
{
    if let Some(old) = previous {
        if same_text(old, current) {
            let none = String::new();
            assert(none@ =~= Seq::<char>::empty());
            return arches_from_paths(&none);
        }
    }
    arches_from_paths(paths)
}

// ---------------------------------------------------------------------------
// Recipes
// ---------------------------------------------------------------------------

/// Whether a directory of the tree is looked into.
pub fn enters_directory(name: &str) -> (r: bool)
    ensures
        r == (name@ != ".git"@),
{
    !same_text(name, ".git")
}

/// Whether a file of the tree is a recipe.
pub fn is_recipe_file(name: &str) -> (r: bool)
    ensures
        r == (name@ == "recipe.toml"@),
{
    same_text(name, "recipe.toml")
}

/// A recipe that Sage could read.
#[derive(Debug)]
pub struct LoadedRecipe {
    pub package: Package,
    /// The first source; empty where there is none.
    pub source_url: String,
    pub source_sha256: String,
}

#[verifier::ext_equal]
pub struct LoadedRecipeModel {
    pub package: PackageModel,
    pub source_url: Seq<char>,
    pub source_sha256: Seq<char>,
}

impl DeepView for LoadedRecipe {
    type V = LoadedRecipeModel;

    open spec fn deep_view(&self) -> LoadedRecipeModel {
        LoadedRecipeModel {
            package: self.package.deep_view(),
            source_url: self.source_url@,
            source_sha256: self.source_sha256@,
        }
    }
}

/// A recipe file of the tree: its path below the tree, and what Sage reads in
/// it or why it cannot.
#[derive(Debug)]
pub struct FoundRecipe {
    pub path: String,
    pub recipe: Result<LoadedRecipe, String>,
}

#[verifier::ext_equal]
pub struct FoundRecipeModel {
    pub path: Seq<char>,
    pub recipe: Result<LoadedRecipeModel, Seq<char>>,
}

impl DeepView for FoundRecipe {
    type V = FoundRecipeModel;

    open spec fn deep_view(&self) -> FoundRecipeModel {
        FoundRecipeModel {
            path: self.path@,
            recipe: match self.recipe {
                Ok(loaded) => Ok(loaded.deep_view()),
                Err(e) => Err(e@),
            },
        }
    }
}

/// The category of a recipe: the first component of its path.
pub open spec fn category_of(path: Seq<char>) -> Seq<char> {
    let all = components_of(path);
    if all.len() > 0 && all[0].len() > 0 {
        all[0]
    } else {
        "other"@
    }
}

fn category(path: &str) -> (r: String)
    ensures
        r@ == category_of(path@),
{
    let all = components(path);
    if all.len() > 0 {
        assert(all.deep_view()[0] == all@[0]@);
        if !all[0].as_str().is_empty() {
            return all[0].clone();
        }
    }
    "other".to_owned()
}

/// The record of a recipe.
pub open spec fn record_of(path: Seq<char>, recipe: LoadedRecipeModel, origin: Seq<char>) -> RecipeRecordModel {
    RecipeRecordModel {
        package: recipe.package,
        origin,
        category: category_of(path),
        recipe_path: path,
        git_commit: Seq::empty(),
        source_url: recipe.source_url,
        source_sha256: recipe.source_sha256,
    }
}

fn make_record(path: &str, recipe: &LoadedRecipe, origin: &str) -> (r: RecipeRecord)
    ensures
        r.deep_view() == record_of(path@, recipe.deep_view(), origin@),
{
    RecipeRecord {
        package: recipe.package.clone(),
        origin: origin.to_owned(),
        category: category(path),
        recipe_path: path.to_owned(),
        git_commit: String::new(),
        source_url: recipe.source_url.clone(),
        source_sha256: recipe.source_sha256.clone(),
    }
}

/// How two recipes are ordered: by channel, name, slot, architecture, epoch,
/// version and release. Two recipes on the same side of it clash.
pub open spec fn coordinate_order(a: RecipeRecordModel, b: RecipeRecordModel) -> Side {
    let p = a.package;
    let q = b.package;
    texts_order(
        seq![p.channel, p.name, p.slot, canonical(p.arch)],
        seq![q.channel, q.name, q.slot, canonical(q.arch)],
    ).or_spec(int_order(p.epoch as int, q.epoch as int)).or_spec(
        text_order(p.version.text, q.version.text),
    ).or_spec(int_order(p.release as int, q.release as int))
}

fn order_coordinates(a: &RecipeRecord, b: &RecipeRecord) -> (r: Side)
    ensures
        r == coordinate_order(a.deep_view(), b.deep_view()),
{
    let p = &a.package;
    let q = &b.package;
    let left: Vec<&str> = vec![
        p.channel.as_str(),
        p.name.as_str(),
        p.slot.as_str(),
        canonical_arch(&p.arch),
    ];
    let right: Vec<&str> = vec![
        q.channel.as_str(),
        q.name.as_str(),
        q.slot.as_str(),
        canonical_arch(&q.arch),
    ];
    assert(left.deep_view() =~= seq![p.channel@, p.name@, p.slot@, canonical(p.arch@)]);
    assert(right.deep_view() =~= seq![q.channel@, q.name@, q.slot@, canonical(q.arch@)]);
    order_texts(&left, &right).or(order_u64(p.epoch as u64, q.epoch as u64)).or(
        order_text(&p.version.text, &q.version.text),
    ).or(order_u64(p.release as u64, q.release as u64))
}

pub open spec fn clash(a: RecipeRecordModel, b: RecipeRecordModel) -> bool {
    coordinate_order(a, b) == Side::Same
}

pub open spec fn coordinate_leq(a: RecipeRecordModel, b: RecipeRecordModel) -> bool {
    coordinate_order(a, b) != Side::After
}

fn coordinate_le(a: &RecipeRecord, b: &RecipeRecord) -> (r: bool)
    ensures
        r == coordinate_leq(a.deep_view(), b.deep_view()),
{
    order_coordinates(a, b) != Side::After
}

/// What is said of two recipes that clash.
pub open spec fn duplicate(first: RecipeRecordModel, second: RecipeRecordModel) -> Seq<char> {
    concat(
        seq![
            "duplicate Sage package "@,
            second.package.channel,
            ":"@,
            second.package.name,
            ":"@,
            second.package.slot,
            " at "@,
            first.recipe_path,
            " and "@,
            second.recipe_path,
        ],
    )
}

fn duplicate_text(first: &RecipeRecord, second: &RecipeRecord) -> (r: String)
    ensures
        r@ == duplicate(first.deep_view(), second.deep_view()),
{
    let parts: Vec<&str> = vec![
        "duplicate Sage package ",
        second.package.channel.as_str(),
        ":",
        second.package.name.as_str(),
        ":",
        second.package.slot.as_str(),
        " at ",
        first.recipe_path.as_str(),
        " and ",
        second.recipe_path.as_str(),
    ];
    assert(parts.deep_view() =~= seq![
        "duplicate Sage package "@,
        second.package.channel@,
        ":"@,
        second.package.name@,
        ":"@,
        second.package.slot@,
        " at "@,
        first.recipe_path@,
        " and "@,
        second.recipe_path@,
    ]);
    text_from(&parts)
}

/// What is said of a recipe that Sage cannot read.
pub open spec fn not_loaded(git_dir: Seq<char>, path: Seq<char>, error: Seq<char>) -> Seq<char> {
    concat(seq!["loading Sage recipe "@, below(git_dir, path), ": "@, error])
}

fn not_loaded_text(git_dir: &str, path: &str, error: &str) -> (r: String)
    ensures
        r@ == not_loaded(git_dir@, path@, error@),
{
    let full = path_join(git_dir, path);
    let parts: Vec<&str> = vec!["loading Sage recipe ", full.as_str(), ": ", error];
    assert(parts.deep_view() =~= seq![
        "loading Sage recipe "@, below(git_dir@, path@), ": "@, error@,
    ]);
    text_from(&parts)
}

/// The records of the recipes found, in the order in which they were found;
/// the first that Sage cannot read or that clashes with an earlier one is an
/// error.
pub open spec fn gathered(git_dir: Seq<char>, found: Seq<FoundRecipeModel>, origin: Seq<char>) -> Result<
    Seq<RecipeRecordModel>,
    Seq<char>,
>
    decreases found.len(),
{
    if found.len() == 0 {
        Ok(Seq::empty())
    } else {
        match gathered(git_dir, found.drop_last(), origin) {
            Err(e) => Err(e),
            Ok(records) => match found.last().recipe {
                Err(e) => Err(not_loaded(git_dir, found.last().path, e)),
                Ok(recipe) => {
                    let record = record_of(found.last().path, recipe, origin);
                    match first_where(records, |r: RecipeRecordModel| clash(r, record)) {
                        Some(i) => Err(duplicate(records[i], record)),
                        None => Ok(records.push(record)),
                    }
                },
            },
        }
    }
}

/// The records of the recipes found, in order.
pub open spec fn collected(git_dir: Seq<char>, found: Seq<FoundRecipeModel>, origin: Seq<char>) -> Result<
    Seq<RecipeRecordModel>,
    Seq<char>,
> {
    match gathered(git_dir, found, origin) {
        Ok(records) => Ok(
            stable_sort(
                records,
                |a: RecipeRecordModel, b: RecipeRecordModel| coordinate_leq(a, b),
            ),
        ),
        Err(e) => Err(e),
    }
}

/// What cannot be gathered stays so, whatever is found after it.
pub proof fn lemma_gathered_fails(
    git_dir: Seq<char>,
    found: Seq<FoundRecipeModel>,
    origin: Seq<char>,
    i: int,
)
    requires
        0 <= i <= found.len(),
        gathered(git_dir, found.take(i), origin) is Err,
    ensures
        gathered(git_dir, found, origin) == gathered(git_dir, found.take(i), origin),
    decreases found.len() - i,
{
    if i < found.len() {
        assert(found.take(i + 1).drop_last() =~= found.take(i));
        lemma_gathered_fails(git_dir, found, origin, i + 1);
    } else {
        assert(found.take(i) =~= found);
    }
}

/// The records of the recipes found, in order.
pub fn collect_recipes(git_dir: &str, found: &Vec<FoundRecipe>, origin_url: &str) -> (r: Result<
    Vec<RecipeRecord>,
    String,
>)
    ensures
        match r {
            Ok(records) => collected(git_dir@, found.deep_view(), origin_url@) == Ok::<
                Seq<RecipeRecordModel>,
                Seq<char>,
            >(records.deep_view()),
            Err(e) => collected(git_dir@, found.deep_view(), origin_url@) == Err::<
                Seq<RecipeRecordModel>,
                Seq<char>,
            >(e@),
        },
{
    let ghost all = found.deep_view();
    let mut records: Vec<RecipeRecord> = Vec::new();
    let mut i: usize = 0;
    assert(all.take(0) =~= Seq::<FoundRecipeModel>::empty());
    assert(records.deep_view() =~= Seq::<RecipeRecordModel>::empty());
    while i < found.len()
        invariant
            all == found.deep_view(),
            i <= found.len(),
            gathered(git_dir@, all.take(i as int), origin_url@) == Ok::<
                Seq<RecipeRecordModel>,
                Seq<char>,
            >(records.deep_view()),
        decreases found.len() - i,
    {
        assert(all.take(i + 1).drop_last() =~= all.take(i as int));
        assert(all.take(i + 1).last() == found@[i as int].deep_view());
        match &found[i].recipe {
            Err(e) => {
                proof {
                    lemma_gathered_fails(git_dir@, all, origin_url@, i + 1);
                }
                return Err(not_loaded_text(git_dir, &found[i].path, e));
            },
            Ok(recipe) => {
                let record = make_record(&found[i].path, recipe, origin_url);
                let same = |r: &RecipeRecord| -> (o: bool)
                    ensures
                        o == clash(r.deep_view(), record.deep_view()),
                    { order_coordinates(r, &record) == Side::Same };
                let at = find_first(
                    &records,
                    same,
                    Ghost(|r: RecipeRecordModel| clash(r, record.deep_view())),
                );
                if let Some(k) = at {
                    proof {
                        lemma_gathered_fails(git_dir@, all, origin_url@, i + 1);
                    }
                    assert(records.deep_view()[k as int] == records@[k as int].deep_view());
                    return Err(duplicate_text(&records[k], &record));
                }
                let ghost before = records.deep_view();
                let ghost n = record.deep_view();
                records.push(record);
                assert(records.deep_view() =~= before.push(n));
            },
        }
        i += 1;
    }
    assert(all.take(i as int) =~= all);
    Ok(
        sort_list(
            records,
            coordinate_le,
            Ghost(|a: RecipeRecordModel, b: RecipeRecordModel| coordinate_leq(a, b)),
        ),
    )
}

// ---------------------------------------------------------------------------
// The synchronization
// ---------------------------------------------------------------------------

/// What a synchronization found.
#[derive(Debug)]
pub struct SyncReport {
    pub count: usize,
    pub changed_arches: Vec<String>,
}

#[verifier::ext_equal]
pub struct SyncReportModel {
    pub count: int,
    pub changed_arches: Seq<Seq<char>>,
}

impl DeepView for SyncReport {
    type V = SyncReportModel;

    open spec fn deep_view(&self) -> SyncReportModel {
        SyncReportModel {
            count: self.count as int,
            changed_arches: self.changed_arches.deep_view(),
        }
    }
}

pub open spec fn summary_of(report: SyncReportModel) -> Seq<char> {
    concat(
        seq![
            decimal(report.count as nat),
            " Sage recipes; changed architectures: "@,
            if report.changed_arches.len() == 0 {
                "none"@
            } else {
                join_with(report.changed_arches, ", "@)
            },
        ],
    )
}

impl SyncReport {
    /// The report in one line.
    pub fn summary(&self) -> (r: String)
        ensures
            r@ == summary_of(self.deep_view()),
    {
        let count = decimal_text(self.count as u128);
        let changed = if self.changed_arches.len() == 0 {
            "none".to_owned()
        } else {
            join(&self.changed_arches, ", ")
        };
        let parts: Vec<&str> = vec![
            count.as_str(),
            " Sage recipes; changed architectures: ",
            changed.as_str(),
        ];
        assert(parts.deep_view() =~= seq![
            count@, " Sage recipes; changed architectures: "@, changed@,
        ]);
        text_from(&parts)
    }
}

/// What was pulled from the tree.
#[derive(Debug)]
pub struct Pulled {
    /// The commit that the mirror is at.
    pub commit: String,
    /// The changed paths, one on each line.
    pub paths: String,
    pub recipes: Vec<FoundRecipe>,
}

#[verifier::ext_equal]
pub struct PulledModel {
    pub commit: Seq<char>,
    pub paths: Seq<char>,
    pub recipes: Seq<FoundRecipeModel>,
}

impl DeepView for Pulled {
    type V = PulledModel;

    open spec fn deep_view(&self) -> PulledModel {
        PulledModel {
            commit: self.commit@,
            paths: self.paths@,
            recipes: self.recipes.deep_view(),
        }
    }
}

/// A record with the commit that it was seen at.
pub open spec fn at_commit(record: RecipeRecordModel, commit: Seq<char>) -> RecipeRecordModel {
    RecipeRecordModel { git_commit: commit, ..record }
}

/// What becomes of the state with what was pulled, and the report; or why
/// nothing does.
pub open spec fn synced(db: DatabaseModel, config: ConfigModel, pulled: PulledModel) -> Result<
    (DatabaseModel, SyncReportModel),
    Seq<char>,
> {
    match collected(crate::config::git_dir_of(config), pulled.recipes, config.git_url) {
        Err(e) => Err(e),
        Ok(records) => {
            let seen = records.map_values(|r: RecipeRecordModel| at_commit(r, pulled.commit));
            let changed = touched(
                entry_at(db.meta, "last_commit"@),
                pulled.commit,
                pulled.paths,
            );
            Ok(
                (
                    DatabaseModel {
                        recipes: recipe_table(seen),
                        meta: put_entry(
                            put_entry(db.meta, "last_commit"@, pulled.commit),
                            "last_changed_arches"@,
                            join_with(changed, ","@),
                        ),
                        ..db
                    },
                    SyncReportModel { count: records.len() as int, changed_arches: changed },
                ),
            )
        },
    }
}

pub open spec fn pulled_view(pulled: Result<&Pulled, &str>) -> Result<PulledModel, Seq<char>> {
    match pulled {
        Ok(p) => Ok(p.deep_view()),
        Err(e) => Err(e@),
    }
}

/// What becomes of the state where pulling may have failed.
pub open spec fn sync_outcome(
    db: DatabaseModel,
    config: ConfigModel,
    pulled: Result<PulledModel, Seq<char>>,
) -> Result<(DatabaseModel, SyncReportModel), Seq<char>> {
    match pulled {
        Ok(p) => synced(db, config, p),
        Err(e) => Err(e),
    }
}

/// Takes over what was pulled. Where that fails, nothing changes.
pub fn sync_inner(database: &mut Database, config: &Config, pulled: Result<&Pulled, &str>) -> (r:
    Result<(String, SyncReport), String>)
    ensures
        match r {
            Ok((commit, report)) => {
                &&& pulled is Ok && commit@ == pulled->Ok_0.deep_view().commit
                &&& sync_outcome(old(database)@, config.deep_view(), pulled_view(pulled)) == Ok::<
                    (DatabaseModel, SyncReportModel),
                    Seq<char>,
                >((final(database)@, report.deep_view()))
            },
            Err(e) => {
                &&& sync_outcome(old(database)@, config.deep_view(), pulled_view(pulled)) == Err::<
                    (DatabaseModel, SyncReportModel),
                    Seq<char>,
                >(e@)
                &&& final(database)@ == old(database)@
            },
        },
{
    let p = match pulled {
        Ok(p) => p,
        Err(e) => {
            return Err(e.to_owned());
        },
    };
    let previous = meta_get(database, "last_commit");
    let before: Option<&str> = match &previous {
        Some(commit) => Some(commit.as_str()),
        None => None,
    };
    let changed = changed_arches(before, &p.commit, &p.paths);
    let records = match collect_recipes(&config.git_dir(), &p.recipes, &config.git_url) {
        Ok(records) => records,
        Err(e) => {
            return Err(e);
        },
    };
    let stamp = |record: &RecipeRecord| -> (o: RecipeRecord)
        ensures
            o.deep_view() == at_commit(record.deep_view(), p.commit@),
        {
            let mut copy = record.clone();
            copy.git_commit = p.commit.clone();
            copy
        };
    let seen = map_list(
        &records,
        stamp,
        Ghost(|r: RecipeRecordModel| at_commit(r, p.commit@)),
    );
    rebuild_packages(database, &seen);
    meta_set(database, "last_commit", &p.commit);
    meta_set(database, "last_changed_arches", &join(&changed, ","));
    Ok((p.commit.clone(), SyncReport { count: records.len(), changed_arches: changed }))
}

/// The entry that a synchronization leaves in the history.
pub open spec fn history_entry(
    trigger: Seq<char>,
    started: i64,
    pulled: Result<PulledModel, Seq<char>>,
    outcome: Result<(DatabaseModel, SyncReportModel), Seq<char>>,
) -> SyncEntryModel {
    match outcome {
        Ok((_, report)) => SyncEntryModel {
            trigger,
            commit: pulled->Ok_0.commit,
            started_at: started,
            ok: true,
            message: summary_of(report),
        },
        Err(e) => SyncEntryModel {
            trigger,
            commit: Seq::empty(),
            started_at: started,
            ok: false,
            message: e,
        },
    }
}

/// The state after a synchronization that ended at `at`, the `id`-th of this
/// run.
pub open spec fn after_sync(
    db: DatabaseModel,
    config: ConfigModel,
    trigger: Seq<char>,
    pulled: Result<PulledModel, Seq<char>>,
    started: i64,
    at: i64,
    id: u64,
) -> DatabaseModel {
    let outcome = sync_outcome(db, config, pulled);
    let entry = history_entry(trigger, started, pulled, outcome);
    match outcome {
        Ok((after, _)) => with_sync(after, entry, at, id),
        Err(_) => with_sync(db, entry, at, id),
    }
}

/// Takes over what was pulled in a synchronization that began at `started`
/// and ended at `at`, and notes how it went.
pub fn run_sync_at(
    database: &mut Database,
    config: &Config,
    trigger: &str,
    pulled: Result<&Pulled, &str>,
    started: i64,
    at: i64,
    id: u64,
) -> (r: Result<SyncReport, String>)
    ensures
        final(database)@ == after_sync(
            old(database)@,
            config.deep_view(),
            trigger@,
            pulled_view(pulled),
            started,
            at,
            id,
        ),
        match r {
            Ok(report) => {
                &&& sync_outcome(old(database)@, config.deep_view(), pulled_view(pulled)) is Ok
                &&& sync_outcome(
                    old(database)@,
                    config.deep_view(),
                    pulled_view(pulled),
                )->Ok_0.1 == report.deep_view()
            },
            Err(e) => sync_outcome(old(database)@, config.deep_view(), pulled_view(pulled))
                == Err::<(DatabaseModel, SyncReportModel), Seq<char>>(e@),
        },
{
    match sync_inner(database, config, pulled) {
        Ok((commit, report)) => {
            log_sync_at(database, trigger, &commit, started, true, &report.summary(), at, id);
            Ok(report)
        },
        Err(e) => {
            let none = String::new();
            assert(none@ =~= Seq::<char>::empty());
            log_sync_at(database, trigger, &none, started, false, &e, at, id);
            Err(e)
        },
    }
}

/// Takes over what was pulled in a synchronization that began at `started`,
/// and notes how it went.
pub fn run_sync(
    database: &mut Database,
    config: &Config,
    trigger: &str,
    pulled: Result<&Pulled, &str>,
    started: i64,
    id: u64,
) -> (r: Result<SyncReport, String>)
    ensures
        exists|at: i64|
            final(database)@ == #[trigger] after_sync(
                old(database)@,
                config.deep_view(),
                trigger@,
                pulled_view(pulled),
                started,
                at,
                id,
            ),
        match r {
            Ok(report) => {
                &&& sync_outcome(old(database)@, config.deep_view(), pulled_view(pulled)) is Ok
                &&& sync_outcome(
                    old(database)@,
                    config.deep_view(),
                    pulled_view(pulled),
                )->Ok_0.1 == report.deep_view()
            },
            Err(e) => sync_outcome(old(database)@, config.deep_view(), pulled_view(pulled))
                == Err::<(DatabaseModel, SyncReportModel), Seq<char>>(e@),
        },
{
    let at = now();
    run_sync_at(database, config, trigger, pulled, started, at, id)
}

// ---------------------------------------------------------------------------
// Laws
// ---------------------------------------------------------------------------

/// How many answers a mirror still waits for, at most.
pub open spec fn answers_left(step: MirrorStep) -> nat {
    match step {
        MirrorStep::Fetch => 4,
        MirrorStep::Branch => 3,
        MirrorStep::Reset => 2,
        MirrorStep::Clone => 2,
        MirrorStep::Head => 1,
    }
}

/// Every answer brings a mirror nearer to its end, and it ends well only with
/// the commit that Git names.
pub proof fn lemma_mirror_ends(
    git_dir: Seq<char>,
    step: MirrorStep,
    answer: Result<Seq<char>, Seq<char>>,
)
    ensures
        match mirror_next(git_dir, step, answer) {
            MirrorActionModel::Run(_, next) => answers_left(next) < answers_left(step),
            MirrorActionModel::Done(commit) => step == MirrorStep::Head && answer is Ok && commit
                == trimmed(answer->Ok_0),
            MirrorActionModel::Fail(e) => answer is Err && e == answer->Err_0,
        },
{
}

/// The order of coordinates: on neither side only where the coordinates are
/// the same, turned around where they are exchanged, and transitive.
pub proof fn lemma_coordinate_order(
    a: RecipeRecordModel,
    b: RecipeRecordModel,
    c: RecipeRecordModel,
)
    ensures
        clash(a, b) <==> {
            &&& a.package.channel == b.package.channel
            &&& a.package.name == b.package.name
            &&& a.package.slot == b.package.slot
            &&& canonical(a.package.arch) == canonical(b.package.arch)
            &&& a.package.epoch == b.package.epoch
            &&& a.package.version.text == b.package.version.text
            &&& a.package.release == b.package.release
        },
        coordinate_order(b, a) == coordinate_order(a, b).flip_spec(),
        coordinate_leq(a, b) && coordinate_leq(b, c) ==> coordinate_leq(a, c),
{
    let x = seq![
        a.package.channel, a.package.name, a.package.slot, canonical(a.package.arch),
    ];
    let y = seq![
        b.package.channel, b.package.name, b.package.slot, canonical(b.package.arch),
    ];
    let z = seq![
        c.package.channel, c.package.name, c.package.slot, canonical(c.package.arch),
    ];
    let u = a.package.version.text;
    let v = b.package.version.text;
    let w = c.package.version.text;
    lemma_texts_order_same(x, y);
    lemma_texts_order_same(y, z);
    lemma_texts_order_same(x, z);
    lemma_texts_order_flip(x, y);
    lemma_texts_order_flip(y, z);
    lemma_texts_order_flip(x, z);
    lemma_text_order_same(u, v);
    lemma_text_order_same(v, w);
    lemma_text_order_same(u, w);
    lemma_text_order_flip(u, v);
    lemma_text_order_flip(v, w);
    lemma_text_order_flip(u, w);
    if texts_order(x, y) != Side::After && texts_order(y, z) != Side::After {
        lemma_texts_order_transitive(x, y, z);
        if texts_order(x, z) == Side::Same {
            lemma_texts_order_transitive(z, x, y);
        }
    }
    if text_order(u, v) != Side::After && text_order(v, w) != Side::After {
        lemma_text_order_transitive(u, v, w);
        if text_order(u, w) == Side::Same {
            lemma_text_order_transitive(w, u, v);
        }
    }
    assert(x == y <==> x[0] == y[0] && x[1] == y[1] && x[2] == y[2] && x[3] == y[3]) by {
        if x[0] == y[0] && x[1] == y[1] && x[2] == y[2] && x[3] == y[3] {
            assert(x =~= y);
        }
    }
}

/// Where the recipes are taken, each recipe found has its record, and no two
/// clash.
pub proof fn lemma_gathered(
    git_dir: Seq<char>,
    found: Seq<FoundRecipeModel>,
    origin: Seq<char>,
)
    requires
        gathered(git_dir, found, origin) is Ok,
    ensures
        gathered(git_dir, found, origin)->Ok_0.len() == found.len(),
        forall|i: int|
            0 <= i < found.len() ==> (#[trigger] found[i]).recipe is Ok && gathered(
                git_dir,
                found,
                origin,
            )->Ok_0[i] == record_of(found[i].path, found[i].recipe->Ok_0, origin),
        forall|i: int, j: int|
            0 <= i < j < found.len() ==> !clash(
                #[trigger] gathered(git_dir, found, origin)->Ok_0[i],
                #[trigger] gathered(git_dir, found, origin)->Ok_0[j],
            ),
    decreases found.len(),
{
    if found.len() > 0 {
        let less = found.drop_last();
        lemma_gathered(git_dir, less, origin);
        let before = gathered(git_dir, less, origin)->Ok_0;
        let all = gathered(git_dir, found, origin)->Ok_0;
        let record = record_of(found.last().path, found.last().recipe->Ok_0, origin);
        let same = |r: RecipeRecordModel| clash(r, record);
        lemma_first_where(before, same);
        assert(all == before.push(record));
        assert forall|i: int| 0 <= i < found.len() implies (#[trigger] found[i]).recipe is Ok
            && all[i] == record_of(found[i].path, found[i].recipe->Ok_0, origin) by {
            if i < less.len() {
                assert(less[i] == found[i]);
            }
        }
        assert forall|i: int, j: int| 0 <= i < j < found.len() implies !clash(
            #[trigger] all[i],
            #[trigger] all[j],
        ) by {
            assert(all[i] == before[i]);
            if j < less.len() {
                assert(all[j] == before[j]);
            } else {
                assert(!same(before[i]));
            }
        }
    }
}

/// Two recipes for one package key are refused: where two recipes found have
/// the same coordinates, nothing is collected.
pub proof fn lemma_duplicates_refused(
    git_dir: Seq<char>,
    found: Seq<FoundRecipeModel>,
    origin: Seq<char>,
    i: int,
    j: int,
)
    requires
        0 <= i < j < found.len(),
        found[i].recipe is Ok,
        found[j].recipe is Ok,
        clash(
            record_of(found[i].path, found[i].recipe->Ok_0, origin),
            record_of(found[j].path, found[j].recipe->Ok_0, origin),
        ),
    ensures
        collected(git_dir, found, origin) is Err,
{
    if gathered(git_dir, found, origin) is Ok {
        lemma_gathered(git_dir, found, origin);
        let all = gathered(git_dir, found, origin)->Ok_0;
        assert(found[i].recipe is Ok && found[j].recipe is Ok);
        assert(!clash(all[i], all[j]));
    }
}

/// What is collected has as many recipes as were found, in the strict order
/// of their coordinates.
pub proof fn lemma_collected(
    git_dir: Seq<char>,
    found: Seq<FoundRecipeModel>,
    origin: Seq<char>,
)
    requires
        collected(git_dir, found, origin) is Ok,
    ensures
        collected(git_dir, found, origin)->Ok_0.len() == found.len(),
        forall|i: int|
            0 <= i < found.len() ==> collected(git_dir, found, origin)->Ok_0.contains(
                record_of((#[trigger] found[i]).path, found[i].recipe->Ok_0, origin),
            ),
        forall|i: int, j: int|
            0 <= i < j < found.len() ==> coordinate_order(
                #[trigger] collected(git_dir, found, origin)->Ok_0[i],
                #[trigger] collected(git_dir, found, origin)->Ok_0[j],
            ) == Side::Before,
{
    let all = gathered(git_dir, found, origin)->Ok_0;
    let leq = |a: RecipeRecordModel, b: RecipeRecordModel| coordinate_leq(a, b);
    let sorted = stable_sort(all, leq);
    lemma_gathered(git_dir, found, origin);
    assert(total_preorder(leq)) by {
        assert forall|a: RecipeRecordModel, b: RecipeRecordModel| #[trigger] leq(a, b) || leq(
            b,
            a,
        ) by {
            lemma_coordinate_order(a, b, a);
        }
        assert forall|a: RecipeRecordModel, b: RecipeRecordModel, c: RecipeRecordModel| #[trigger]
            leq(a, b) && #[trigger] leq(b, c) implies leq(a, c) by {
            lemma_coordinate_order(a, b, c);
        }
    }
    lemma_sort_permutes(all, leq);
    lemma_sort_ascends(all, leq);
    assert forall|i: int| 0 <= i < found.len() implies sorted.contains(
        record_of((#[trigger] found[i]).path, found[i].recipe->Ok_0, origin),
    ) by {
        assert(all.contains(all[i]));
    }
    assert(all.no_duplicates()) by {
        assert forall|i: int, j: int| 0 <= i < all.len() && 0 <= j < all.len() && i != j implies all[i]
            != all[j] by {
            lemma_coordinate_order(all[i], all[i], all[i]);
            if i < j {
                assert(!clash(all[i], all[j]));
            } else {
                assert(!clash(all[j], all[i]));
            }
        }
    }
    all.lemma_multiset_has_no_duplicates();
    sorted.lemma_multiset_has_no_duplicates_conv();
    assert forall|i: int, j: int| 0 <= i < j < found.len() implies coordinate_order(
        #[trigger] sorted[i],
        #[trigger] sorted[j],
    ) == Side::Before by {
        assert(leq(sorted[i], sorted[j]));
        assert(sorted.contains(sorted[i]) && sorted.contains(sorted[j]));
        assert(all.contains(sorted[i]) && all.contains(sorted[j]));
        let m = all.index_of(sorted[i]);
        let n = all.index_of(sorted[j]);
        assert(sorted[i] != sorted[j]);
        if m < n {
            assert(!clash(all[m], all[n]));
        } else {
            assert(!clash(all[n], all[m]));
            lemma_coordinate_order(all[m], all[n], all[m]);
        }
    }
}

/// Every architecture reported is the canonical form of one named in the
/// paths, and each of those is reported.
pub proof fn lemma_path_arches(paths: Seq<char>, arch: Seq<char>)
    ensures
        path_arches(paths).contains(arch) <==> exists|c: Seq<char>| #[trigger]
            all_components(lines_of(paths)).contains(c) && arch_names().contains(c) && canonical(c)
                == arch,
{
    let all = all_components(lines_of(paths));
    let keep = |c: Seq<char>| arch_names().contains(c);
    let named = all.filter(keep);
    let spelled = named.map_values(|c: Seq<char>| canonical(c));
    lemma_text_set(spelled);
    if spelled.contains(arch) {
        let i = spelled.index_of(arch);
        all.lemma_filter_pred(keep, i);
        assert(keep(named[i]));
        assert(named.contains(named[i]));
        all.lemma_filter_contains_rev(keep, named[i]);
        assert(all.contains(named[i]));
    }
    if exists|c: Seq<char>| #[trigger]
        all.contains(c) && arch_names().contains(c) && canonical(c) == arch {
        let c = choose|c: Seq<char>| #[trigger]
            all.contains(c) && arch_names().contains(c) && canonical(c) == arch;
        let k = all.index_of(c);
        assert(keep(all[k]));
        all.lemma_filter_contains(keep, k);
        let i = named.index_of(c);
        assert(spelled[i] == arch);
    }
}

/// Where the commit is the previous one, no architecture is touched.
pub proof fn lemma_same_commit_touches_nothing(commit: Seq<char>, paths: Seq<char>)
    ensures
        touched(Some(commit), commit, paths) == Seq::<Seq<char>>::empty(),
{
    let none = Seq::<char>::empty();
    assert(split_on(none, '\n') =~= seq![none]);
    assert(split_on(none, '\n').drop_last() =~= Seq::<Seq<char>>::empty());
    assert(lines_of(none) =~= Seq::<Seq<char>>::empty());
    let all = all_components(lines_of(none));
    let keep = |c: Seq<char>| arch_names().contains(c);
    assert(all.filter(keep) =~= Seq::<Seq<char>>::empty()) by {
        reveal(Seq::filter);
    }
    assert(all.filter(keep).map_values(|c: Seq<char>| canonical(c)) =~= Seq::<Seq<char>>::empty());
    lemma_text_set_empty();
}

/// A synchronization that succeeds notes the commit, so a further one at the
/// same commit reports no architecture.
pub proof fn lemma_sync_notes_commit(
    db: DatabaseModel,
    config: ConfigModel,
    pulled: PulledModel,
    again: PulledModel,
)
    requires
        tables_ordered(db),
        synced(db, config, pulled) is Ok,
        again.commit == pulled.commit,
    ensures
        ({
            let after = synced(db, config, pulled)->Ok_0.0;
            &&& entry_at(after.meta, "last_commit"@) == Some(pulled.commit)
            &&& entry_at(after.meta, "last_changed_arches"@) == Some(
                join_with(synced(db, config, pulled)->Ok_0.1.changed_arches, ","@),
            )
            &&& synced(after, config, again) is Ok ==> synced(
                after,
                config,
                again,
            )->Ok_0.1.changed_arches.len() == 0
        }),
{
    reveal_strlit("last_commit");
    reveal_strlit("last_changed_arches");
    let changed = synced(db, config, pulled)->Ok_0.1.changed_arches;
    let first = put_entry(db.meta, "last_commit"@, pulled.commit);
    lemma_put(db.meta, "last_commit"@, pulled.commit);
    lemma_put(first, "last_changed_arches"@, join_with(changed, ","@));
    assert("last_commit"@ != "last_changed_arches"@) by {
        assert("last_commit"@.len() != "last_changed_arches"@.len());
    }
    lemma_same_commit_touches_nothing(again.commit, again.paths);
}

/// However a synchronization goes, it is in the history, and a failed one
/// leaves everything else as it was.
pub proof fn lemma_sync_is_noted(
    db: DatabaseModel,
    config: ConfigModel,
    trigger: Seq<char>,
    pulled: Result<PulledModel, Seq<char>>,
    started: i64,
    at: i64,
    id: u64,
)
    requires
        tables_ordered(db),
    ensures
        ({
            let outcome = sync_outcome(db, config, pulled);
            let after = after_sync(db, config, trigger, pulled, started, at, id);
            let entry = history_entry(trigger, started, pulled, outcome);
            &&& entry_at(after.sync_log, sync_key(at, id)) == Some(entry)
            &&& entry.ok == outcome is Ok
            &&& outcome is Err ==> after == (DatabaseModel { sync_log: after.sync_log, ..db })
        }),
{
    let outcome = sync_outcome(db, config, pulled);
    let entry = history_entry(trigger, started, pulled, outcome);
    lemma_put(db.sync_log, sync_key(at, id), entry);
}

} // verus!
