//! The cleaning plan: what is cleaned by default, what only on request, and how much it holds.

use vstd::prelude::*;

use crate::scan::{held, plus, scan_sizes, size_or_nothing, Node};
use crate::targets::{
    answers, answers_all, catalog, lists, lists_all, metadata_of, only_view, probes, probes_all,
    resolve_targets, resolved, resolved_rows, Category, DirItem, MetadataRow, ResolvedRow,
    ResolvedTarget, Risk, TargetMetadata, World,
};
use crate::text::{
    ascii_lower, chars_of, contains, contains_text, lower_ascii, no_texts, push_text, same, texts,
};

verus! {

/// A target of the plan. The size is known after the preview.
#[derive(Debug)]
pub struct PlannedTarget {
    pub target: ResolvedTarget,
    pub metadata: TargetMetadata,
    pub size: u64,
}

/// A planned target as mathematical data.
pub struct PlannedRow {
    pub target: ResolvedRow,
    pub metadata: MetadataRow,
    pub size: u64,
}

impl View for PlannedTarget {
    type V = PlannedRow;

    open spec fn view(&self) -> PlannedRow {
        PlannedRow { target: self.target@, metadata: self.metadata@, size: self.size }
    }
}

pub open spec fn planned_rows(v: Seq<PlannedTarget>) -> Seq<PlannedRow> {
    v.map_values(|p: PlannedTarget| p@)
}

/// The plan that menu and command line share; targets are not resolved again before it is carried
/// out.
#[derive(Debug)]
pub struct CleanPlan {
    /// Low-risk targets, cleaned by default.
    pub targets: Vec<PlannedTarget>,
    /// Targets that were found, but need the user to choose them.
    pub optional: Vec<PlannedTarget>,
}

/// A plan as mathematical data.
pub struct PlanRow {
    pub targets: Seq<PlannedRow>,
    pub optional: Seq<PlannedRow>,
}

impl View for CleanPlan {
    type V = PlanRow;

    open spec fn view(&self) -> PlanRow {
        PlanRow { targets: planned_rows(self.targets@), optional: planned_rows(self.optional@) }
    }
}

impl Default for CleanPlan {
    fn default() -> (r: CleanPlan)
        ensures
            r@ == (PlanRow { targets: seq![], optional: seq![] }),
    {
        let r = CleanPlan { targets: Vec::new(), optional: Vec::new() };
        assert(planned_rows(r.targets@) =~= Seq::<PlannedRow>::empty());
        assert(planned_rows(r.optional@) =~= Seq::<PlannedRow>::empty());
        r
    }
}

/// A target before its size is known.
pub open spec fn planned(t: ResolvedRow) -> PlannedRow {
    PlannedRow { target: t, metadata: metadata_of(t), size: 0 }
}

/// Cleaned without being asked for: of low risk, and cheap to download again.
pub open spec fn by_default(m: MetadataRow) -> bool {
    m.risk == Risk::Low && !m.expensive
}

/// The targets cleaned by default, in order.
pub open spec fn default_part(s: Seq<ResolvedRow>) -> Seq<PlannedRow>
    decreases s.len(),
{
    if s.len() == 0 {
        seq![]
    } else {
        let front = default_part(s.drop_last());
        if by_default(metadata_of(s.last())) {
            front.push(planned(s.last()))
        } else {
            front
        }
    }
}

/// The targets that need to be chosen, in order.
pub open spec fn optional_part(s: Seq<ResolvedRow>) -> Seq<PlannedRow>
    decreases s.len(),
{
    if s.len() == 0 {
        seq![]
    } else {
        let front = optional_part(s.drop_last());
        if by_default(metadata_of(s.last())) {
            front
        } else {
            front.push(planned(s.last()))
        }
    }
}

/// The plan for resolved targets.
pub open spec fn plan_for(s: Seq<ResolvedRow>) -> PlanRow {
    PlanRow { targets: default_part(s), optional: optional_part(s) }
}

/// The items of a list that stand at the given places, in list order.
pub open spec fn chosen(s: Seq<PlannedRow>, places: Seq<usize>) -> Seq<PlannedRow>
    decreases s.len(),
{
    if s.len() == 0 {
        seq![]
    } else {
        let front = chosen(s.drop_last(), places);
        if places.contains((s.len() - 1) as usize) {
            front.push(s.last())
        } else {
            front
        }
    }
}

/// The items of a list that stand at none of the given places, in list order.
pub open spec fn unchosen(s: Seq<PlannedRow>, places: Seq<usize>) -> Seq<PlannedRow>
    decreases s.len(),
{
    if s.len() == 0 {
        seq![]
    } else {
        let front = unchosen(s.drop_last(), places);
        if places.contains((s.len() - 1) as usize) {
            front
        } else {
            front.push(s.last())
        }
    }
}

/// The plan with some optional targets moved to the end of what is cleaned.
pub open spec fn with_optional(p: PlanRow, places: Seq<usize>) -> PlanRow {
    PlanRow {
        targets: p.targets + chosen(p.optional, places),
        optional: unchosen(p.optional, places),
    }
}

/// What the targets hold together.
pub open spec fn total_size(s: Seq<PlannedRow>) -> nat
    decreases s.len(),
{
    if s.len() == 0 {
        0
    } else {
        total_size(s.drop_last()) + s.last().size as nat
    }
}

/// The target with its size.
pub open spec fn sized(p: PlannedRow, size: u64) -> PlannedRow {
    PlannedRow { target: p.target, metadata: p.metadata, size }
}

/// The targets with the sizes of the entries that were read for them, from the given place on.
pub open spec fn measured(s: Seq<PlannedRow>, entries: Seq<Option<Node>>, from: int) -> Seq<
    PlannedRow,
> {
    Seq::new(s.len(), |i: int| sized(s[i], held(size_or_nothing(entries[from + i])) as u64))
}

fn has_place(places: &[usize], i: usize) -> (r: bool)
    ensures
        r == places@.contains(i),
{
    for k in 0..places.len()
        invariant
            forall|j: int| 0 <= j < k ==> places@[j] != i,
    {
        if places[k] == i {
            assert(places@.contains(places@[k as int]));
            return true;
        }
    }
    false
}

fn push_planned(list: &mut Vec<PlannedTarget>, p: PlannedTarget)
    ensures
        planned_rows(final(list)@) == planned_rows(old(list)@).push(p@),
{
    list.push(p);
    assert(planned_rows(list@) =~= planned_rows(old(list)@).push(p@));
}

/// Gives each target the size in its place.
fn fill_sizes(list: &mut Vec<PlannedTarget>, sizes: &Vec<u64>, from: usize)
    requires
        from + old(list)@.len() <= sizes.len(),
    ensures
        final(list)@.len() == old(list)@.len(),
        forall|i: int|
            0 <= i < old(list)@.len() ==> (#[trigger] final(list)@[i])@ == sized(
                old(list)@[i]@,
                sizes@[from + i],
            ),
{
    let ghost before = list@;
    let mut i: usize = 0;
    while i < list.len()
        invariant
            i <= list@.len(),
            list@.len() == before.len(),
            from + before.len() <= sizes.len(),
            forall|j: int|
                0 <= j < i ==> (#[trigger] list@[j])@ == sized(before[j]@, sizes@[from + j]),
            forall|j: int| i <= j < list@.len() ==> #[trigger] list@[j] == before[j],
        decreases list@.len() - i,
    {
        list[i].size = sizes[from + i];
        i = i + 1;
    }
}

fn clones(list: &Vec<PlannedTarget>, out: &mut Vec<ResolvedTarget>)
    ensures
        resolved_rows(final(out)@) == resolved_rows(old(out)@) + planned_rows(list@).map_values(
            |p: PlannedRow| p.target,
        ),
{
    let ghost before = resolved_rows(out@);
    let ghost all = planned_rows(list@).map_values(|p: PlannedRow| p.target);
    assert(before + all.take(0) =~= before);
    for i in 0..list.len()
        invariant
            all == planned_rows(list@).map_values(|p: PlannedRow| p.target),
            resolved_rows(out@) == before + all.take(i as int),
    {
        let t = list[i].target.clone();
        let ghost sofar = out@;
        out.push(t);
        assert(resolved_rows(out@) =~= resolved_rows(sofar).push(t@));
        assert(resolved_rows(out@) =~= before + all.take(i + 1));
    }
    assert(all.take(all.len() as int) =~= all);
}

/// The targets of planned rows.
pub open spec fn rows_of(s: Seq<PlannedRow>) -> Seq<ResolvedRow> {
    s.map_values(|p: PlannedRow| p.target)
}

impl CleanPlan {
    /// The plan for targets that were resolved. Whatever was found is in it; what is slow to
    /// download again, or belongs to the system, waits to be chosen.
    pub fn of(found: Vec<ResolvedTarget>) -> (r: CleanPlan)
        ensures
            r@ == plan_for(resolved_rows(found@)),
    {
        let mut plan = CleanPlan::default();
        let ghost all = resolved_rows(found@);
        assert(all.take(0) =~= Seq::<ResolvedRow>::empty());
        for i in 0..found.len()
            invariant
                all == resolved_rows(found@),
                plan@ == plan_for(all.take(i as int)),
        {
            assert(all.take(i + 1).drop_last() =~= all.take(i as int));
            assert(all.take(i + 1).last() == found@[i as int]@);
            let target = found[i].clone();
            let metadata = target.metadata();
            let p = PlannedTarget { target, metadata, size: 0 };
            if matches!(metadata.risk, Risk::Low) && !metadata.expensive {
                push_planned(&mut plan.targets, p);
            } else {
                push_planned(&mut plan.optional, p);
            }
        }
        assert(all.take(all.len() as int) =~= all);
        plan
    }

    /// Resolves the catalog and plans what was found.
    pub fn discover<
        F: Fn(&str) -> Option<String>,
        L: Fn(&Vec<String>) -> Option<Vec<DirItem>>,
        P: Fn(&Vec<String>) -> Option<String>,
    >(only: Option<&[Category]>, windows: bool, lookup: &F, list: &L, probe: &P) -> (r: CleanPlan)
        requires
            answers_all(*lookup),
            lists_all(*list),
            probes_all(*probe),
        ensures
            forall|w: World|
                answers(*lookup, w.env) && lists(*list, w.fs) && probes(*probe, w.there) ==> r@
                    == plan_for(#[trigger] resolved(catalog(), only_view(only), windows, w)),
    {
        CleanPlan::of(resolve_targets(only, windows, lookup, list, probe))
    }

    /// Fills in the sizes from what was read at the paths of `all_resolved`, in that order.
    pub fn preview(&mut self, entries: &Vec<Option<Node>>)
        requires
            entries@.len() == old(self).targets@.len() + old(self).optional@.len(),
        ensures
            final(self)@ == (PlanRow {
                targets: measured(old(self)@.targets, entries@, 0),
                optional: measured(
                    old(self)@.optional,
                    entries@,
                    old(self)@.targets.len() as int,
                ),
            }),
    {
        let ghost before = *self;
        let sizes = scan_sizes(entries);
        let n = self.targets.len();
        fill_sizes(&mut self.targets, &sizes, 0);
        fill_sizes(&mut self.optional, &sizes, n);
        assert(planned_rows(self.targets@) =~= measured(before@.targets, entries@, 0)) by {
            assert forall|i: int| 0 <= i < before.targets@.len() implies planned_rows(
                self.targets@,
            )[i] == measured(before@.targets, entries@, 0)[i] by {
                assert(self.targets@[i]@ == sized(before.targets@[i]@, sizes@[0 + i]));
                assert(sizes@[i] == held(size_or_nothing(entries@[0 + i])));
            }
        }
        assert(planned_rows(self.optional@) =~= measured(before@.optional, entries@, n as int)) by {
            assert forall|i: int| 0 <= i < before.optional@.len() implies planned_rows(
                self.optional@,
            )[i] == measured(before@.optional, entries@, n as int)[i] by {
                assert(self.optional@[i]@ == sized(before.optional@[i]@, sizes@[n + i]));
                assert(sizes@[n + i] == held(size_or_nothing(entries@[n + i])));
            }
        }
    }

    /// Moves the optional targets at the given places, counted from 0, to the end of what is
    /// cleaned. They keep the order in which the user saw them, however the places are ordered or
    /// repeated; a place that does not exist is passed over.
    pub fn include_optional(&mut self, indices: &[usize])
        ensures
            final(self)@ == with_optional(old(self)@, indices@),
    {
        let ghost targets = self@.targets;
        let ghost all = self@.optional;
        let mut kept: Vec<PlannedTarget> = Vec::new();
        let count = self.optional.len();
        let mut i: usize = 0;
        assert(all.take(0) =~= Seq::<PlannedRow>::empty());
        assert(targets + Seq::<PlannedRow>::empty() =~= targets);
        assert(planned_rows(kept@) =~= Seq::<PlannedRow>::empty());
        assert(all.skip(0) =~= all);
        while self.optional.len() > 0
            invariant
                i + self.optional@.len() == all.len(),
                all.len() == count,
                planned_rows(self.optional@) == all.skip(i as int),
                self@.targets == targets + chosen(all.take(i as int), indices@),
                planned_rows(kept@) == unchosen(all.take(i as int), indices@),
            decreases self.optional@.len(),
        {
            assert(all.take(i + 1).drop_last() =~= all.take(i as int));
            assert(all.take(i + 1).last() == all[i as int]);
            assert(all.skip(i as int)[0] == self.optional@[0]@);
            let ghost rest = self.optional@;
            let p = self.optional.remove(0);
            assert(planned_rows(self.optional@) =~= planned_rows(rest).skip(1));
            assert(planned_rows(self.optional@) =~= all.skip(i + 1));
            if has_place(indices, i) {
                push_planned(&mut self.targets, p);
                assert(self@.targets =~= targets + chosen(all.take(i + 1), indices@));
            } else {
                push_planned(&mut kept, p);
            }
            i = i + 1;
        }
        assert(all.take(all.len() as int) =~= all);
        self.optional = kept;
    }

    /// What the plan cleans, together, held at the largest that 64 bits can tell.
    pub fn total(&self) -> (r: u64)
        ensures
            r == held(total_size(self@.targets)),
    {
        let mut sum: u64 = 0;
        let ghost all = self@.targets;
        assert(all.take(0) =~= Seq::<PlannedRow>::empty());
        for i in 0..self.targets.len()
            invariant
                all == self@.targets,
                sum == held(total_size(all.take(i as int))),
        {
            assert(all.take(i + 1).drop_last() =~= all.take(i as int));
            sum = plus(sum, self.targets[i].size);
        }
        assert(all.take(all.len() as int) =~= all);
        sum
    }

    /// Whether a target of the plan belongs to Windows itself.
    pub fn requires_admin(&self) -> (r: bool)
        ensures
            r == exists|i: int|
                0 <= i < self@.targets.len() && (#[trigger] self@.targets[i]).metadata.requires_admin,
    {
        for i in 0..self.targets.len()
            invariant
                forall|j: int|
                    0 <= j < i ==> !(#[trigger] self@.targets[j]).metadata.requires_admin,
        {
            assert(self@.targets[i as int] == self.targets@[i as int]@);
            if self.targets[i].metadata.requires_admin {
                return true;
            }
        }
        false
    }

    /// The targets that the plan cleans.
    pub fn resolved(&self) -> (r: Vec<ResolvedTarget>)
        ensures
            resolved_rows(r@) == rows_of(self@.targets),
    {
        let mut out: Vec<ResolvedTarget> = Vec::new();
        clones(&self.targets, &mut out);
        assert(resolved_rows(out@) =~= rows_of(self@.targets));
        out
    }

    /// The targets that the plan cleans, and behind them the optional ones.
    pub fn all_resolved(&self) -> (r: Vec<ResolvedTarget>)
        ensures
            resolved_rows(r@) == rows_of(self@.targets) + rows_of(self@.optional),
    {
        let mut out: Vec<ResolvedTarget> = Vec::new();
        clones(&self.targets, &mut out);
        clones(&self.optional, &mut out);
        assert(resolved_rows(out@) =~= rows_of(self@.targets) + rows_of(self@.optional));
        out
    }
}

// ---------------------------------------------------------------------------
// Programs that hold caches open
// ---------------------------------------------------------------------------

/// The programs that the caches of the plan belong to, in plan order.
pub open spec fn owners(s: Seq<PlannedRow>) -> Seq<Seq<char>>
    decreases s.len(),
{
    if s.len() == 0 {
        seq![]
    } else {
        let front = owners(s.drop_last());
        match s.last().metadata.associated_app {
            Some(app) => front.push(app),
            None => front,
        }
    }
}

/// The list holds the name, ASCII case aside.
pub open spec fn named_before(list: Seq<Seq<char>>, name: Seq<char>) -> bool {
    exists|i: int| 0 <= i < list.len() && ascii_lower(#[trigger] list[i]) == ascii_lower(name)
}

/// The names that the process list holds, each once, ASCII case aside.
pub open spec fn running(names: Seq<Seq<char>>, processes: Seq<char>) -> Seq<Seq<char>>
    decreases names.len(),
{
    if names.len() == 0 {
        seq![]
    } else {
        let front = running(names.drop_last(), processes);
        let name = names.last();
        if contains(ascii_lower(processes), ascii_lower(name)) && !named_before(front, name) {
            front.push(name)
        } else {
            front
        }
    }
}

/// The programs that the caches of the plan belong to, in plan order.
pub fn cache_owners(plan: &CleanPlan) -> (r: Vec<String>)
    ensures
        texts(r@) == owners(plan@.targets),
{
    let mut out = no_texts();
    let ghost all = plan@.targets;
    assert(all.take(0) =~= Seq::<PlannedRow>::empty());
    for i in 0..plan.targets.len()
        invariant
            all == plan@.targets,
            texts(out@) == owners(all.take(i as int)),
    {
        assert(all.take(i + 1).drop_last() =~= all.take(i as int));
        assert(all.take(i + 1).last() == plan.targets@[i as int]@);
        if let Some(app) = plan.targets[i].metadata.associated_app {
            push_text(&mut out, app.to_string());
        }
    }
    assert(all.take(all.len() as int) =~= all);
    out
}

fn is_named_before(list: &Vec<String>, name: &str) -> (r: bool)
    ensures
        r == named_before(texts(list@), name@),
{
    let n = lower_ascii(chars_of(name).as_slice());
    for i in 0..list.len()
        invariant
            n@ == ascii_lower(name@),
            forall|j: int| 0 <= j < i ==> ascii_lower(#[trigger] texts(list@)[j]) != n@,
    {
        assert(texts(list@)[i as int] == list@[i as int]@);
        let seen = lower_ascii(chars_of(list[i].as_str()).as_slice());
        if same(seen.as_slice(), n.as_slice()) {
            return true;
        }
    }
    false
}

/// The names that the process list holds, each once.
pub fn running_among(names: &Vec<String>, processes: &str) -> (r: Vec<String>)
    ensures
        texts(r@) == running(texts(names@), processes@),
{
    let list = lower_ascii(chars_of(processes).as_slice());
    let mut out = no_texts();
    let ghost all = texts(names@);
    assert(all.take(0) =~= Seq::<Seq<char>>::empty());
    for i in 0..names.len()
        invariant
            all == texts(names@),
            list@ == ascii_lower(processes@),
            texts(out@) == running(all.take(i as int), processes@),
    {
        assert(all.take(i + 1).drop_last() =~= all.take(i as int));
        assert(all.take(i + 1).last() == names@[i as int]@);
        let name = lower_ascii(chars_of(names[i].as_str()).as_slice());
        if contains_text(list.as_slice(), name.as_slice()) && !is_named_before(
            &out,
            names[i].as_str(),
        ) {
            push_text(&mut out, names[i].clone());
        }
    }
    assert(all.take(all.len() as int) =~= all);
    out
}

/// Bytes as text: what `String::from_utf8_lossy` makes of them.
pub uninterp spec fn utf8_lossy(bytes: Seq<u8>) -> Seq<char>;

/// `String::from_utf8_lossy` reads bytes as UTF-8 and puts a replacement character where they are
/// none. The contract names the text.
#[verifier::external_body]
pub(crate) fn lossy_text(bytes: &[u8]) -> (r: String)
    ensures
        r@ == utf8_lossy(bytes@),
{
    String::from_utf8_lossy(bytes).into_owned()
}

/// The known owners of caches that run, by what the process lister printed. The answer is cautious:
/// that none is found says only that no known program runs. Only Windows has such a lister, and
/// without an owner to look for its output does not matter.
pub fn running_cache_apps(plan: &CleanPlan, windows: bool, printed: Option<&[u8]>) -> (r: Vec<String>)
    ensures
        texts(r@) == match printed {
            Some(bytes) => if windows {
                running(owners(plan@.targets), utf8_lossy(bytes@))
            } else {
                seq![]
            },
            None => seq![],
        },
{
    if !windows {
        return no_texts();
    }
    match printed {
        Some(bytes) => {
            let names = cache_owners(plan);
            let text = lossy_text(bytes);
            running_among(&names, text.as_str())
        },
        None => no_texts(),
    }
}

// ---------------------------------------------------------------------------
// Laws
// ---------------------------------------------------------------------------

/// Without being asked, only what is of low risk and cheap to download again is cleaned: no system
/// cache, and no costly store.
pub proof fn default_plan_is_safe(s: Seq<ResolvedRow>, i: int)
    requires
        0 <= i < plan_for(s).targets.len(),
    ensures
        plan_for(s).targets[i].metadata.risk == Risk::Low,
        !plan_for(s).targets[i].metadata.expensive,
        !plan_for(s).targets[i].metadata.requires_admin,
        plan_for(s).targets[i].target.category != Category::System,
        plan_for(s).targets[i] == planned(plan_for(s).targets[i].target),
    decreases s.len(),
{
    if s.len() > 0 {
        let front = default_part(s.drop_last());
        if i < front.len() {
            default_plan_is_safe(s.drop_last(), i);
        }
    }
}

/// Everything that was found is planned, either by default or as an option.
pub proof fn plan_loses_nothing(s: Seq<ResolvedRow>)
    ensures
        plan_for(s).targets.len() + plan_for(s).optional.len() == s.len(),
        forall|i: int|
            0 <= i < s.len() ==> #[trigger] plan_for(s).targets.contains(planned(s[i]))
                || plan_for(s).optional.contains(planned(s[i])),
    decreases s.len(),
{
    if s.len() > 0 {
        let t = s.drop_last();
        plan_loses_nothing(t);
        let p = plan_for(s);
        let q = plan_for(t);
        assert forall|i: int| 0 <= i < s.len() implies #[trigger] p.targets.contains(planned(s[i]))
            || p.optional.contains(planned(s[i])) by {
            if i < t.len() {
                assert(t[i] == s[i]);
                assert(q.targets.contains(planned(t[i])) || q.optional.contains(planned(t[i])));
                if q.targets.contains(planned(t[i])) {
                    let k = choose|k: int| 0 <= k < q.targets.len() && q.targets[k] == planned(t[i]);
                    assert(p.targets[k] == planned(s[i]));
                } else {
                    let k = choose|k: int|
                        0 <= k < q.optional.len() && q.optional[k] == planned(t[i]);
                    assert(p.optional[k] == planned(s[i]));
                }
            } else if by_default(metadata_of(s.last())) {
                assert(p.targets[p.targets.len() - 1] == planned(s[i]));
            } else {
                assert(p.optional[p.optional.len() - 1] == planned(s[i]));
            }
        }
    }
}

proof fn lemma_chosen_multiset(s: Seq<PlannedRow>, places: Seq<usize>)
    ensures
        chosen(s, places).to_multiset().add(unchosen(s, places).to_multiset()) =~= s.to_multiset(),
    decreases s.len(),
{
    broadcast use vstd::seq_lib::group_to_multiset_ensures;

    if s.len() > 0 {
        lemma_chosen_multiset(s.drop_last(), places);
        assert(s =~= s.drop_last().push(s.last()));
    }
}

/// Choosing optional targets loses none and doubles none, whatever places are given.
pub proof fn choosing_loses_nothing(p: PlanRow, places: Seq<usize>)
    ensures
        ({
            let q = with_optional(p, places);
            q.targets.to_multiset().add(q.optional.to_multiset()) == p.targets.to_multiset().add(
                p.optional.to_multiset(),
            )
        }),
{
    lemma_chosen_multiset(p.optional, places);
    vstd::seq_lib::lemma_multiset_commutative(p.targets, chosen(p.optional, places));
    let q = with_optional(p, places);
    assert(q.targets.to_multiset().add(q.optional.to_multiset()) =~= p.targets.to_multiset().add(
        p.optional.to_multiset(),
    ));
}

/// Choosing nothing leaves the plan as it is.
pub proof fn choosing_nothing_changes_nothing(p: PlanRow)
    ensures
        with_optional(p, seq![]) == p,
{
    lemma_none_chosen(p.optional);
    assert(p.targets + Seq::<PlannedRow>::empty() =~= p.targets);
}

proof fn lemma_none_chosen(s: Seq<PlannedRow>)
    ensures
        chosen(s, seq![]) == Seq::<PlannedRow>::empty(),
        unchosen(s, seq![]) == s,
    decreases s.len(),
{
    if s.len() > 0 {
        lemma_none_chosen(s.drop_last());
        assert(s.drop_last().push(s.last()) =~= s);
    } else {
        assert(s =~= Seq::<PlannedRow>::empty());
    }
}

proof fn lemma_running_once(names: Seq<Seq<char>>, processes: Seq<char>)
    ensures
        forall|i: int, j: int|
            0 <= i < j < running(names, processes).len() ==> ascii_lower(
                #[trigger] running(names, processes)[i],
            ) != ascii_lower(#[trigger] running(names, processes)[j]),
    decreases names.len(),
{
    if names.len() > 0 {
        lemma_running_once(names.drop_last(), processes);
        let front = running(names.drop_last(), processes);
        let all = running(names, processes);
        assert forall|i: int, j: int| 0 <= i < j < all.len() implies ascii_lower(#[trigger] all[i])
            != ascii_lower(#[trigger] all[j]) by {
            assert(all[i] == front[i]);
            if j < front.len() {
                assert(all[j] == front[j]);
            }
        }
    }
}

/// A program that owns several caches is named once.
pub proof fn running_programs_are_named_once(
    names: Seq<Seq<char>>,
    processes: Seq<char>,
    i: int,
    j: int,
)
    requires
        0 <= i < j < running(names, processes).len(),
    ensures
        ascii_lower(running(names, processes)[i]) != ascii_lower(running(names, processes)[j]),
{
    lemma_running_once(names, processes);
}

/// What is cleaned without being asked for is exactly what is of low risk: a target is in the plan where
/// it belongs neither to Windows nor to a store that is slow to download again, and waits to be chosen
/// else.
pub proof fn only_what_is_risky_waits(s: Seq<ResolvedRow>, i: int)
    requires
        0 <= i < s.len(),
    ensures
        ({
            let m = metadata_of(s[i]);
            let p = PlannedRow { target: s[i], metadata: m, size: 0 };
            &&& !m.requires_admin && !m.expensive ==> plan_for(s).targets.contains(p)
            &&& m.requires_admin || m.expensive ==> plan_for(s).optional.contains(p)
        }),
    decreases s.len(),
{
    let t = s.drop_last();
    let p = PlannedRow { target: s[i], metadata: metadata_of(s[i]), size: 0 };
    let now = plan_for(s);
    let before = plan_for(t);
    if i < t.len() {
        assert(t[i] == s[i]);
        only_what_is_risky_waits(t, i);
        if before.targets.contains(p) {
            let k = choose|k: int| 0 <= k < before.targets.len() && before.targets[k] == p;
            assert(now.targets[k] == p);
        }
        if before.optional.contains(p) {
            let k = choose|k: int| 0 <= k < before.optional.len() && before.optional[k] == p;
            assert(now.optional[k] == p);
        }
    } else if by_default(metadata_of(s[i])) {
        assert(now.targets[before.targets.len() as int] == p);
    } else {
        assert(now.optional[before.optional.len() as int] == p);
    }
}

/// Targets keep their order: a plan for two lists is the plan for the one with that for the other behind
/// it.
pub proof fn plans_follow_the_order(s: Seq<ResolvedRow>, t: Seq<ResolvedRow>)
    ensures
        plan_for(s + t).targets == plan_for(s).targets + plan_for(t).targets,
        plan_for(s + t).optional == plan_for(s).optional + plan_for(t).optional,
    decreases t.len(),
{
    if t.len() > 0 {
        plans_follow_the_order(s, t.drop_last());
        assert((s + t).drop_last() =~= s + t.drop_last());
        assert(plan_for(s + t).targets =~= plan_for(s).targets + plan_for(t).targets);
        assert(plan_for(s + t).optional =~= plan_for(s).optional + plan_for(t).optional);
    } else {
        assert(s + t =~= s);
        assert(plan_for(s).targets + plan_for(t).targets =~= plan_for(s).targets);
        assert(plan_for(s).optional + plan_for(t).optional =~= plan_for(s).optional);
    }
}

/// An optional target whose place is given is cleaned, and one whose place is not given still waits; what
/// was cleaned before still is.
pub proof fn chosen_targets_are_cleaned(p: PlanRow, places: Seq<usize>, k: int)
    requires
        0 <= k < p.optional.len() <= usize::MAX,
    ensures
        places.contains(k as usize) ==> with_optional(p, places).targets.contains(p.optional[k]),
        !places.contains(k as usize) ==> with_optional(p, places).optional.contains(p.optional[k]),
        p.targets.is_prefix_of(with_optional(p, places).targets),
{
    lemma_chosen_places(p.optional, places, k);
    let q = with_optional(p, places);
    let more = chosen(p.optional, places);
    assert(p.targets =~= q.targets.take(p.targets.len() as int));
    if places.contains(k as usize) {
        let i = choose|i: int| 0 <= i < more.len() && more[i] == p.optional[k];
        assert(q.targets[p.targets.len() + i] == p.optional[k]);
    }
}

proof fn lemma_chosen_places(s: Seq<PlannedRow>, places: Seq<usize>, k: int)
    requires
        0 <= k < s.len() <= usize::MAX,
    ensures
        places.contains(k as usize) ==> chosen(s, places).contains(s[k]),
        !places.contains(k as usize) ==> unchosen(s, places).contains(s[k]),
    decreases s.len(),
{
    let t = s.drop_last();
    let a = chosen(s, places);
    let b = unchosen(s, places);
    if k < t.len() {
        assert(t[k] == s[k]);
        lemma_chosen_places(t, places, k);
        if places.contains(k as usize) {
            let c = chosen(t, places);
            let i = choose|i: int| 0 <= i < c.len() && c[i] == s[k];
            assert(a[i] == s[k]);
        } else {
            let c = unchosen(t, places);
            let i = choose|i: int| 0 <= i < c.len() && c[i] == s[k];
            assert(b[i] == s[k]);
        }
    } else if places.contains(k as usize) {
        assert(a[a.len() - 1] == s[k]);
    } else {
        assert(b[b.len() - 1] == s[k]);
    }
}

/// The sizes of a plan add up.
pub proof fn totals_add_up(s: Seq<PlannedRow>, t: Seq<PlannedRow>, p: PlannedRow)
    ensures
        total_size(s + t) == total_size(s) + total_size(t),
        total_size(seq![p]) == p.size,
    decreases t.len(),
{
    assert(seq![p].drop_last() =~= Seq::<PlannedRow>::empty());
    assert(total_size(seq![p].drop_last()) == 0);
    assert(seq![p].last() == p);
    if t.len() > 0 {
        totals_add_up(s, t.drop_last(), p);
        assert((s + t).drop_last() =~= s + t.drop_last());
    } else {
        assert(s + t =~= s);
    }
}

/// Every program that owns a cache of the plan and runs is named: where the list of processes holds its
/// name, ASCII case aside, so does what is told, and nothing else is told.
pub proof fn running_owners_are_named(
    names: Seq<Seq<char>>,
    i: int,
    front: Seq<char>,
    part: Seq<char>,
    back: Seq<char>,
)
    requires
        0 <= i < names.len(),
        ascii_lower(part) == ascii_lower(names[i]),
    ensures
        exists|k: int|
            0 <= k < running(names, front + part + back).len() && ascii_lower(
                #[trigger] running(names, front + part + back)[k],
            ) == ascii_lower(names[i]),
        forall|k: int|
            0 <= k < running(names, front + part + back).len() ==> names.contains(
                #[trigger] running(names, front + part + back)[k],
            ) && contains(
                ascii_lower(front + part + back),
                ascii_lower(running(names, front + part + back)[k]),
            ),
    decreases names.len(),
{
    let processes = front + part + back;
    let l = ascii_lower(processes);
    let n = front.len() as int;
    assert(l.subrange(n, n + part.len()) =~= ascii_lower(part));
    assert(crate::text::occurs_at(l, ascii_lower(names[i]), n));
    lemma_running_holds(names, processes, i);
    lemma_running_from(names, processes);
}

proof fn lemma_running_holds(names: Seq<Seq<char>>, processes: Seq<char>, i: int)
    requires
        0 <= i < names.len(),
        contains(ascii_lower(processes), ascii_lower(names[i])),
    ensures
        named_before(running(names, processes), names[i]),
    decreases names.len(),
{
    let before = running(names.drop_last(), processes);
    let all = running(names, processes);
    if i < names.len() - 1 {
        assert(names.drop_last()[i] == names[i]);
        lemma_running_holds(names.drop_last(), processes, i);
        let k = choose|k: int|
            0 <= k < before.len() && ascii_lower(#[trigger] before[k]) == ascii_lower(names[i]);
        assert(all[k] == before[k]);
    } else if !named_before(before, names[i]) {
        assert(all[before.len() as int] == names[i]);
    }
}

proof fn lemma_running_from(names: Seq<Seq<char>>, processes: Seq<char>)
    ensures
        forall|k: int|
            0 <= k < running(names, processes).len() ==> names.contains(
                #[trigger] running(names, processes)[k],
            ) && contains(ascii_lower(processes), ascii_lower(running(names, processes)[k])),
    decreases names.len(),
{
    if names.len() > 0 {
        lemma_running_from(names.drop_last(), processes);
        let before = running(names.drop_last(), processes);
        let all = running(names, processes);
        assert forall|k: int| 0 <= k < all.len() implies names.contains(#[trigger] all[k]) && contains(
            ascii_lower(processes),
            ascii_lower(all[k]),
        ) by {
            if k < before.len() {
                assert(all[k] == before[k]);
                let j = choose|j: int| 0 <= j < names.drop_last().len() && names.drop_last()[j] == before[k];
                assert(names[j] == all[k]);
            } else {
                assert(names[names.len() - 1] == all[k]);
            }
        }
    }
}

/// The owners of the caches of a plan are looked for in its order, and none is forgotten.
pub proof fn no_owner_is_forgotten(s: Seq<PlannedRow>, i: int)
    requires
        0 <= i < s.len(),
        s[i].metadata.associated_app is Some,
    ensures
        owners(s).contains(s[i].metadata.associated_app->0),
    decreases s.len(),
{
    let front = owners(s.drop_last());
    let all = owners(s);
    let app = s[i].metadata.associated_app->0;
    if i < s.len() - 1 {
        assert(s.drop_last()[i] == s[i]);
        no_owner_is_forgotten(s.drop_last(), i);
        let k = choose|k: int| 0 <= k < front.len() && front[k] == app;
        assert(all[k] == app);
    } else {
        assert(all[front.len() as int] == app);
    }
}

/// Measuring gives each target the size of what was read for it, and changes nothing else.
pub proof fn sizes_stay_with_their_targets(
    s: Seq<PlannedRow>,
    entries: Seq<Option<Node>>,
    from: int,
    i: int,
)
    requires
        0 <= i < s.len(),
        0 <= from,
        from + s.len() <= entries.len(),
    ensures
        measured(s, entries, from).len() == s.len(),
        measured(s, entries, from)[i].target == s[i].target,
        measured(s, entries, from)[i].metadata == s[i].metadata,
        measured(s, entries, from)[i].size == held(size_or_nothing(entries[from + i])),
{
}

} // verus!
