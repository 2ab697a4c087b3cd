//! Build states, derived by comparing the version of a recipe with that of
//! the published build.

use core::cmp::Ordering;

use vstd::prelude::*;

use crate::digits::{decimal, decimal_text, parse_u32, parsed_u32};
use crate::order::{ascending, total_preorder};
use crate::text::{concat, int_order, order_u64, text_from, Side};

verus! {

/// Build state of one recipe. It is never stored: the recipes and the
/// published builds are the truth.
#[derive(Debug, Clone, Copy, PartialEq, Eq, Structural)]
pub enum State {
    /// No published build yet.
    Missing,
    /// The published build is older than the recipe.
    Outdated,
    /// Recipe and published build agree.
    Built,
    /// The published build is newer than the recipe.
    Ahead,
}

impl DeepView for State {
    type V = State;

    open spec fn deep_view(&self) -> State {
        *self
    }
}

impl State {
    pub open spec fn label_spec(self) -> Seq<char> {
        match self {
            State::Missing => "missing"@,
            State::Outdated => "outdated"@,
            State::Built => "built"@,
            State::Ahead => "ahead"@,
        }
    }

    /// The name of the state.
    pub fn label(self) -> (r: &'static str)
        ensures
            r@ == self.label_spec(),
    {
        match self {
            State::Missing => "missing",
            State::Outdated => "outdated",
            State::Built => "built",
            State::Ahead => "ahead",
        }
    }
}

/// Different states have different names.
pub proof fn lemma_labels_distinct(a: State, b: State)
    requires
        a.label_spec() == b.label_spec(),
    ensures
        a == b,
{
    reveal_strlit("missing");
    reveal_strlit("outdated");
    reveal_strlit("built");
    reveal_strlit("ahead");
    assert("missing"@[0] == 'm' && "outdated"@[0] == 'o' && "built"@[0] == 'b' && "ahead"@[0]
        == 'a');
}

// ---------------------------------------------------------------------------
// Versions
// ---------------------------------------------------------------------------

/// An upstream version and its place among the upstream versions at hand:
/// the one that Sage orders later has the higher rank, and versions that
/// Sage does not tell apart share theirs.
#[derive(Debug)]
pub struct Upstream {
    pub text: String,
    pub rank: u64,
}

#[verifier::ext_equal]
pub struct UpstreamModel {
    pub text: Seq<char>,
    pub rank: u64,
}

impl DeepView for Upstream {
    type V = UpstreamModel;

    open spec fn deep_view(&self) -> UpstreamModel {
        UpstreamModel { text: self.text@, rank: self.rank }
    }
}

impl Clone for Upstream {
    fn clone(&self) -> (r: Self)
        ensures
            r == *self,
    {
        Upstream { text: self.text.clone(), rank: self.rank }
    }
}

/// A full version: the epoch counts first, then the upstream version, then
/// the release.
#[derive(Debug)]
pub struct Version {
    pub epoch: u32,
    pub upstream: Upstream,
    pub release: u32,
}

#[verifier::ext_equal]
pub struct VersionModel {
    pub epoch: u32,
    pub rank: u64,
    pub release: u32,
}

impl DeepView for Version {
    type V = VersionModel;

    open spec fn deep_view(&self) -> VersionModel {
        VersionModel { epoch: self.epoch, rank: self.upstream.rank, release: self.release }
    }
}

/// The epoch decides, then the upstream version, then the release.
pub open spec fn version_order(a: VersionModel, b: VersionModel) -> Side {
    int_order(a.epoch as int, b.epoch as int).or_spec(
        int_order(a.rank as int, b.rank as int),
    ).or_spec(int_order(a.release as int, b.release as int))
}

/// The version of a release text: a text that is no number counts as zero.
pub open spec fn release_number(release: Seq<char>) -> u32 {
    match parsed_u32(release) {
        Some(n) => n,
        None => 0,
    }
}

/// Compares two versions given by their parts.
pub fn order_versions(
    epoch_a: u32,
    rank_a: u64,
    release_a: u32,
    epoch_b: u32,
    rank_b: u64,
    release_b: u32,
) -> (r: Side)
    ensures
        r == version_order(
            (VersionModel { epoch: epoch_a, rank: rank_a, release: release_a }),
            (VersionModel { epoch: epoch_b, rank: rank_b, release: release_b }),
        ),
{
    order_u64(epoch_a as u64, epoch_b as u64).or(order_u64(rank_a, rank_b)).or(
        order_u64(release_a as u64, release_b as u64),
    )
}

/// The number of a release text.
pub fn release_of(release: &str) -> (r: u32)
    ensures
        r == release_number(release@),
{
    match parse_u32(release) {
        Some(n) => n,
        None => 0,
    }
}

/// Comparing versions is a total order on their parts.
pub proof fn lemma_version_order(a: VersionModel, b: VersionModel, c: VersionModel)
    ensures
        version_order(a, b) == Side::Same <==> a == b,
        version_order(b, a) == version_order(a, b).flip_spec(),
        version_order(a, b) != Side::After && version_order(b, c) != Side::After ==> version_order(
            a,
            c,
        ) != Side::After,
{
}

/// A version text as Sage reads it. `parsed` is what Sage makes of the text,
/// if it accepts it; `bare` is the text taken as an upstream version.
#[derive(Debug)]
pub struct VersionText {
    pub bare: Upstream,
    pub parsed: Option<Version>,
}

#[verifier::ext_equal]
pub struct VersionTextModel {
    pub bare: UpstreamModel,
    pub parsed: Option<VersionModel>,
}

impl DeepView for VersionText {
    type V = VersionTextModel;

    open spec fn deep_view(&self) -> VersionTextModel {
        VersionTextModel { bare: self.bare.deep_view(), parsed: self.parsed.deep_view() }
    }
}

impl Clone for Version {
    fn clone(&self) -> (r: Self)
        ensures
            r == *self,
    {
        Version { epoch: self.epoch, upstream: self.upstream.clone(), release: self.release }
    }
}

impl Clone for VersionText {
    fn clone(&self) -> (r: Self)
        ensures
            r == *self,
    {
        VersionText {
            bare: self.bare.clone(),
            parsed: match &self.parsed {
                Some(v) => Some(v.clone()),
                None => None,
            },
        }
    }
}

/// The rank of the item at `i` of a sorted list, where `greater` tells of each
/// item whether it is greater than the one before: how often the items rise up
/// to there.
pub open spec fn rank_at(greater: Seq<bool>, i: int) -> nat
    decreases i,
{
    if i <= 0 {
        0
    } else {
        rank_at(greater, i - 1) + if greater[i] {
            1nat
        } else {
            0
        }
    }
}

/// The ranks of the items of a sorted list, where `greater` tells of each item
/// but the first whether it is greater than the one before: they stay the same
/// where it is not, and rise by one where it is.
pub fn dense_ranks(greater: &Vec<bool>) -> (r: Vec<u64>)
    ensures
        r.len() == greater.len(),
        forall|i: int| 0 <= i < r.len() ==> (#[trigger] r@[i]) as nat == rank_at(greater@, i),
{
    let mut out: Vec<u64> = Vec::new();
    let mut rank: u64 = 0;
    let mut i: usize = 0;
    while i < greater.len()
        invariant
            i <= greater.len(),
            out.len() == i,
            rank as nat == rank_at(greater@, i - 1),
            rank <= i,
            i == 0 ==> rank == 0,
            forall|j: int| 0 <= j < i ==> (#[trigger] out@[j]) as nat == rank_at(greater@, j),
        decreases greater.len() - i,
    {
        if i > 0 && greater[i] {
            rank = rank + 1;
        }
        out.push(rank);
        i += 1;
    }
    out
}

/// A version with its release.
pub open spec fn dashed(version: Seq<char>, release: Seq<char>) -> Seq<char> {
    concat(seq![version, "-"@, release])
}

/// A version with its release.
pub fn plain_text(version: &str, release: &str) -> (r: String)
    ensures
        r@ == dashed(version@, release@),
{
    let parts: Vec<&str> = vec![version, "-", release];
    assert(parts.deep_view() =~= seq![version@, "-"@, release@]);
    text_from(&parts)
}

/// A version with its epoch and release.
pub open spec fn dashed_in_epoch(epoch: u32, version: Seq<char>, release: Seq<char>) -> Seq<char> {
    concat(seq![decimal(epoch as nat), ":"@, version, "-"@, release])
}

/// A version with its epoch and release.
pub fn full_text(epoch: u32, version: &str, release: &str) -> (r: String)
    ensures
        r@ == dashed_in_epoch(epoch, version@, release@),
{
    let number = decimal_text(epoch as u128);
    let parts: Vec<&str> = vec![number.as_str(), ":", version, "-", release];
    assert(parts.deep_view() =~= seq![
        decimal(epoch as nat), ":"@, version@, "-"@, release@,
    ]);
    text_from(&parts)
}

/// What Sage reads in the two version texts of a package: `plain` is
/// `version-release`, `full` has the epoch and a colon in front of that.
#[derive(Debug)]
pub struct Reading {
    pub plain: VersionText,
    pub full: VersionText,
}

#[verifier::ext_equal]
pub struct ReadingModel {
    pub plain: VersionTextModel,
    pub full: VersionTextModel,
}

impl DeepView for Reading {
    type V = ReadingModel;

    open spec fn deep_view(&self) -> ReadingModel {
        ReadingModel { plain: self.plain.deep_view(), full: self.full.deep_view() }
    }
}

impl Clone for Reading {
    fn clone(&self) -> (r: Self)
        ensures
            r == *self,
    {
        Reading { plain: self.plain.clone(), full: self.full.clone() }
    }
}

/// The version that a text stands for: what Sage reads in it or, where Sage
/// does not accept it, the whole text as the upstream version of release
/// zero.
pub open spec fn version_of(v: VersionTextModel) -> VersionModel {
    match v.parsed {
        Some(version) => version,
        None => VersionModel { epoch: 0, rank: v.bare.rank, release: 0 },
    }
}

/// Compares two version texts.
pub fn order_text_versions(a: &VersionText, b: &VersionText) -> (r: Side)
    ensures
        r == version_order(version_of(a.deep_view()), version_of(b.deep_view())),
{
    let (epoch_a, rank_a, release_a): (u32, u64, u32) = match &a.parsed {
        Some(v) => (v.epoch, v.upstream.rank, v.release),
        None => (0, a.bare.rank, 0),
    };
    let (epoch_b, rank_b, release_b): (u32, u64, u32) = match &b.parsed {
        Some(v) => (v.epoch, v.upstream.rank, v.release),
        None => (0, b.bare.rank, 0),
    };
    order_versions(epoch_a, rank_a, release_a, epoch_b, rank_b, release_b)
}

/// Compares two version texts. A bare upstream version is accepted and has
/// release zero.
pub fn compare_versions(a: &VersionText, b: &VersionText) -> (r: Ordering)
    ensures
        r == Ordering::Less <==> version_order(version_of(a.deep_view()), version_of(b.deep_view()))
            == Side::Before,
        r == Ordering::Equal <==> version_order(
            version_of(a.deep_view()),
            version_of(b.deep_view()),
        ) == Side::Same,
        r == Ordering::Greater <==> version_order(
            version_of(a.deep_view()),
            version_of(b.deep_view()),
        ) == Side::After,
{
    match order_text_versions(a, b) {
        Side::Before => Ordering::Less,
        Side::Same => Ordering::Equal,
        Side::After => Ordering::Greater,
    }
}

// ---------------------------------------------------------------------------
// Deriving the state
// ---------------------------------------------------------------------------

/// The state of a recipe, given the version published for it.
pub open spec fn state_of(recipe: VersionModel, published: Option<VersionModel>) -> State {
    match published {
        None => State::Missing,
        Some(build) => match version_order(build, recipe) {
            Side::Before => State::Outdated,
            Side::Same => State::Built,
            Side::After => State::Ahead,
        },
    }
}

/// The version made of an epoch, an upstream version and a release text.
pub open spec fn version_from(epoch: u32, upstream: UpstreamModel, release: Seq<char>) -> VersionModel {
    VersionModel { epoch, rank: upstream.rank, release: release_number(release) }
}

/// The state of a recipe, with epochs left out of the comparison.
pub fn derive(
    recipe_version: &Upstream,
    recipe_release: &str,
    published: Option<(&Upstream, &str)>,
) -> (r: State)
    ensures
        r == state_of(
            version_from(0, recipe_version.deep_view(), recipe_release@),
            match published {
                None => None,
                Some((version, release)) => Some(version_from(0, version.deep_view(), release@)),
            },
        ),
{
    match published {
        None => derive_with_epoch(0, recipe_version, recipe_release, None),
        Some((version, release)) => derive_with_epoch(
            0,
            recipe_version,
            recipe_release,
            Some((0, version, release)),
        ),
    }
}

/// The state of a recipe. The epoch is part of the version and wins over any
/// difference in upstream version or release.
pub fn derive_with_epoch(
    recipe_epoch: u32,
    recipe_version: &Upstream,
    recipe_release: &str,
    published: Option<(u32, &Upstream, &str)>,
) -> (r: State)
    ensures
        r == state_of(
            version_from(recipe_epoch, recipe_version.deep_view(), recipe_release@),
            match published {
                None => None,
                Some((epoch, version, release)) => Some(
                    version_from(epoch, version.deep_view(), release@),
                ),
            },
        ),
{
    let Some((epoch, version, release)) = published else {
        return State::Missing;
    };
    match order_versions(
        epoch,
        version.rank,
        release_of(release),
        recipe_epoch,
        recipe_version.rank,
        release_of(recipe_release),
    ) {
        Side::Before => State::Outdated,
        Side::Same => State::Built,
        Side::After => State::Ahead,
    }
}

/// A build of a later epoch is ahead, one of an earlier epoch outdated,
/// whatever the upstream versions and releases are.
pub proof fn lemma_epoch_wins(recipe: VersionModel, build: VersionModel)
    ensures
        build.epoch > recipe.epoch ==> state_of(recipe, Some(build)) == State::Ahead,
        build.epoch < recipe.epoch ==> state_of(recipe, Some(build)) == State::Outdated,
{
}

/// A package is missing exactly while nothing is published, and built
/// exactly when recipe and build have the same version.
pub proof fn lemma_state_meaning(recipe: VersionModel, published: Option<VersionModel>)
    ensures
        state_of(recipe, published) == State::Missing <==> published is None,
        state_of(recipe, published) == State::Built <==> published == Some(recipe),
{
}

/// Publishing the recipe's own version builds it, and swapping recipe and
/// build swaps outdated and ahead.
pub proof fn lemma_state_swap(a: VersionModel, b: VersionModel)
    ensures
        state_of(a, Some(a)) == State::Built,
        state_of(a, Some(b)) == State::Outdated <==> state_of(b, Some(a)) == State::Ahead,
{
}

/// Of upstream versions only the order counts: where two pairs of them are
/// ordered alike, so are the versions made with them, and the states.
pub proof fn lemma_only_order_counts(
    recipe: VersionModel,
    build: VersionModel,
    recipe_rank: u64,
    build_rank: u64,
)
    requires
        int_order(build.rank as int, recipe.rank as int) == int_order(
            build_rank as int,
            recipe_rank as int,
        ),
    ensures
        state_of(recipe, Some(build)) == state_of(
            (VersionModel { rank: recipe_rank, ..recipe }),
            Some((VersionModel { rank: build_rank, ..build })),
        ),
{
}

/// Ranks order the items of a sorted list just as the list is ordered.
pub proof fn lemma_ranks_order<T>(
    items: Seq<T>,
    leq: spec_fn(T, T) -> bool,
    greater: Seq<bool>,
    i: int,
    j: int,
)
    requires
        total_preorder(leq),
        ascending(items, leq),
        greater.len() == items.len(),
        forall|k: int|
            0 < k < items.len() ==> #[trigger] greater[k] == !leq(items[k], items[k - 1]),
        0 <= i < items.len(),
        0 <= j < items.len(),
    ensures
        (rank_at(greater, i) <= rank_at(greater, j)) == leq(items[i], items[j]),
{
    if i <= j {
        lemma_ranks_rise(items, leq, greater, i, j);
        assert(i < j ==> leq(items[i], items[j]));
    } else {
        lemma_ranks_rise(items, leq, greater, j, i);
    }
}

/// From one item to a later one the rank rises just where the items do.
proof fn lemma_ranks_rise<T>(
    items: Seq<T>,
    leq: spec_fn(T, T) -> bool,
    greater: Seq<bool>,
    i: int,
    j: int,
)
    requires
        total_preorder(leq),
        ascending(items, leq),
        greater.len() == items.len(),
        forall|k: int|
            0 < k < items.len() ==> #[trigger] greater[k] == !leq(items[k], items[k - 1]),
        0 <= i <= j < items.len(),
    ensures
        rank_at(greater, i) <= rank_at(greater, j),
        (rank_at(greater, i) == rank_at(greater, j)) == leq(items[j], items[i]),
    decreases j - i,
{
    if i < j {
        lemma_ranks_rise(items, leq, greater, i, j - 1);
        assert(greater[j] == !leq(items[j], items[j - 1]));
        assert(leq(items[j - 1], items[j]));
        assert(i < j - 1 ==> leq(items[i], items[j - 1]));
    }
}

} // verus!
