//! The engine catalog's structure: which engine variants a tech-tree node
//! unlocks, and how an engine variant is named.
//!
//! An engine of the catalog may carry alternative configurations, each
//! unlocked at a tech-tree node of its own. The configurations that count are
//! the leading run of initialized ones; the first uninitialized one ends it.
use vstd::prelude::*;

verus! {

/// The tech-tree nodes, in the order they are unlocked.
pub const TECH_TREE: [&'static str; 9] = [
    "start",
    "Post-War Rocketry Testing",
    "Early Rocketry",
    "Basic Rocketry",
    "1956-1957 Orbital Rocketry",
    "Lunar Landing",
    "2009-2013 Orbital Rocketry",
    "2014-2018 ORSC Engines",
    "2019-2028 Orbital Rocketry",
];

/// What the catalog needs to know of an engine configuration.
pub struct ConfigListing {
    pub is_initialized: bool,
    pub tech_tree_node: String,
}

/// What the catalog needs to know of an engine: the node that unlocks it
/// and its configurations, in order.
pub struct EngineListing {
    pub tech_tree_node: String,
    pub configurations: Vec<ConfigListing>,
}

/// An engine variant: engine `engine` of the catalog, in its base form
/// (`config` is `None`) or in its configuration `config`.
#[derive(Debug, Clone, Copy, PartialEq, Eq, Structural)]
pub struct EngineRef {
    pub engine: usize,
    pub config: Option<usize>,
}

/// The engine variants one tech-tree node unlocks, in catalog order.
pub struct TechGroup {
    pub node: String,
    pub members: Vec<EngineRef>,
}

/// The mathematical value of an engine listing: its node and, for each
/// configuration, whether it is initialized and its node.
pub struct ListingView {
    pub node: Seq<char>,
    pub configs: Seq<(bool, Seq<char>)>,
}

impl View for ConfigListing {
    type V = (bool, Seq<char>);

    open spec fn view(&self) -> (bool, Seq<char>) {
        (self.is_initialized, self.tech_tree_node@)
    }
}

impl View for EngineListing {
    type V = ListingView;

    open spec fn view(&self) -> ListingView {
        ListingView {
            node: self.tech_tree_node@,
            configs: self.configurations@.map_values(|c: ConfigListing| c@),
        }
    }
}

impl View for TechGroup {
    type V = (Seq<char>, Seq<EngineRef>);

    open spec fn view(&self) -> (Seq<char>, Seq<EngineRef>) {
        (self.node@, self.members@)
    }
}

/// The views of a sequence of engine listings.
pub open spec fn listing_views(ls: Seq<EngineListing>) -> Seq<ListingView> {
    ls.map_values(|l: EngineListing| l@)
}

/// The views of a sequence of tech groups.
pub open spec fn group_views(gs: Seq<TechGroup>) -> Seq<(Seq<char>, Seq<EngineRef>)> {
    gs.map_values(|g: TechGroup| g@)
}

/// The views of a sequence of variants.
pub open spec fn variant_views(vs: Seq<(String, EngineRef)>) -> Seq<(Seq<char>, EngineRef)> {
    vs.map_values(|v: (String, EngineRef)| (v.0@, v.1))
}

/// How many configurations lead the list before the first uninitialized one.
pub open spec fn active_count(configs: Seq<(bool, Seq<char>)>) -> nat
    decreases configs.len(),
{
    if configs.len() == 0 || !configs[0].0 {
        0
    } else {
        1 + active_count(configs.drop_first())
    }
}

/// The variants of engine `i` with its listing `l`, each with the node that
/// unlocks it: the base engine, then its active configurations in order.
pub open spec fn variants_of(l: ListingView, i: int) -> Seq<(Seq<char>, EngineRef)> {
    seq![(l.node, EngineRef { engine: i as usize, config: None })] + Seq::new(
        active_count(l.configs),
        |c: int| (l.configs[c].1, EngineRef { engine: i as usize, config: Some(c as usize) }),
    )
}

/// All variants of a catalog, engine by engine.
pub open spec fn all_variants(ls: Seq<ListingView>) -> Seq<(Seq<char>, EngineRef)>
    decreases ls.len(),
{
    if ls.len() == 0 {
        Seq::empty()
    } else {
        all_variants(ls.drop_last()) + variants_of(ls.last(), ls.len() - 1)
    }
}

/// The variants among `vs` that node `n` unlocks, in order.
pub open spec fn unlocked_by(vs: Seq<(Seq<char>, EngineRef)>, n: Seq<char>) -> Seq<EngineRef>
    decreases vs.len(),
{
    if vs.len() == 0 {
        Seq::empty()
    } else {
        unlocked_by(vs.drop_last(), n) + if vs.last().0 == n {
            seq![vs.last().1]
        } else {
            Seq::empty()
        }
    }
}

/// Some group of `gs` is for node `n`.
pub open spec fn node_listed(gs: Seq<(Seq<char>, Seq<EngineRef>)>, n: Seq<char>) -> bool {
    exists|a: int| 0 <= a < gs.len() && #[trigger] gs[a].0 == n
}

/// `gs` groups the variants `vs` by node: one group per node that unlocks a
/// variant, no two groups for one node, and each group holds exactly the
/// variants its node unlocks, in order.
pub open spec fn groups_variants(
    gs: Seq<(Seq<char>, Seq<EngineRef>)>,
    vs: Seq<(Seq<char>, EngineRef)>,
) -> bool {
    &&& forall|a: int, b: int| 0 <= a < b < gs.len() ==> gs[a].0 != gs[b].0
    &&& forall|a: int| 0 <= a < gs.len() ==> #[trigger] gs[a].1 == unlocked_by(vs, gs[a].0)
    &&& forall|a: int| 0 <= a < gs.len() ==> #[trigger] gs[a].1.len() > 0
    &&& forall|k: int| 0 <= k < vs.len() ==> node_listed(gs, #[trigger] vs[k].0)
}

pub proof fn lemma_unlocked_by_push(vs: Seq<(Seq<char>, EngineRef)>, v: (Seq<char>, EngineRef), n: Seq<char>)
    ensures
        unlocked_by(vs.push(v), n) == unlocked_by(vs, n) + if v.0 == n {
            seq![v.1]
        } else {
            Seq::empty()
        },
{
    assert(vs.push(v).drop_last() =~= vs);
}

/// The number of active configurations of a listing.
fn active_configurations(configs: &Vec<ConfigListing>) -> (r: usize)
    ensures
        r == active_count(configs@.map_values(|c: ConfigListing| c@)),
        r <= configs.len(),
{
    let ghost cs = configs@.map_values(|c: ConfigListing| c@);
    let mut n: usize = 0;
    assert(cs.subrange(0, cs.len() as int) =~= cs);
    while n < configs.len() && configs[n].is_initialized
        invariant
            n <= configs.len(),
            cs == configs@.map_values(|c: ConfigListing| c@),
            active_count(cs) == n + active_count(cs.subrange(n as int, cs.len() as int)),
        decreases configs.len() - n,
    {
        assert(cs.subrange(n as int, cs.len() as int).drop_first() =~= cs.subrange(n + 1, cs.len() as int));
        n = n + 1;
    }
    if n < configs.len() {
        assert(!cs.subrange(n as int, cs.len() as int)[0].0);
    } else {
        assert(cs.subrange(n as int, cs.len() as int).len() == 0);
    }
    n
}

/// Lists every engine variant of the catalog with the node that unlocks
/// it: engine by engine, the base engine and then its active
/// configurations.
pub fn engine_variants(listings: &Vec<EngineListing>) -> (r: Vec<(String, EngineRef)>)
    ensures
        variant_views(r@) == all_variants(listing_views(listings@)),
{
    let ghost ls = listing_views(listings@);
    let mut r: Vec<(String, EngineRef)> = Vec::new();
    let mut i: usize = 0;
    while i < listings.len()
        invariant
            i <= listings.len(),
            ls == listing_views(listings@),
            variant_views(r@) == all_variants(ls.take(i as int)),
        decreases listings.len() - i,
    {
        let l = &listings[i];
        let ghost lv = ls[i as int];
        assert(lv == l@);
        let ghost start = variant_views(r@);
        r.push((l.tech_tree_node.clone(), EngineRef { engine: i, config: None }));
        let n = active_configurations(&l.configurations);
        let mut c: usize = 0;
        while c < n
            invariant
                c <= n,
                n == active_count(lv.configs),
                n <= l.configurations.len(),
                lv == l@,
                variant_views(r@) == start + variants_of(lv, i as int).take(c + 1),
            decreases n - c,
        {
            let ghost before = variant_views(r@);
            r.push((l.configurations[c].tech_tree_node.clone(), EngineRef { engine: i, config: Some(c) }));
            assert(lv.configs[c as int] == l.configurations@[c as int]@);
            assert(variant_views(r@) =~= before.push((lv.configs[c as int].1, EngineRef { engine: i, config: Some(c) })));
            assert(variants_of(lv, i as int).take(c + 2) =~= variants_of(lv, i as int).take(c + 1).push(
                (lv.configs[c as int].1, EngineRef { engine: i, config: Some(c) }),
            ));
            c = c + 1;
        }
        assert(variants_of(lv, i as int).take(n + 1) =~= variants_of(lv, i as int));
        assert(ls.take(i + 1).drop_last() =~= ls.take(i as int));
        i = i + 1;
    }
    assert(ls.take(i as int) =~= ls);
    r
}

/// Groups the engine variants of the catalog by the tech-tree node that
/// unlocks them (see `groups_variants`).
pub fn group_by_tech_node(listings: &Vec<EngineListing>) -> (r: Vec<TechGroup>)
    ensures
        groups_variants(group_views(r@), all_variants(listing_views(listings@))),
{
    let variants = engine_variants(listings);
    let ghost vs = variant_views(variants@);
    let mut groups: Vec<TechGroup> = Vec::new();
    let mut i: usize = 0;
    while i < variants.len()
        invariant
            i <= variants.len(),
            vs == variant_views(variants@),
            groups_variants(group_views(groups@), vs.take(i as int)),
        decreases variants.len() - i,
    {
        let ghost pre = vs.take(i as int);
        let ghost gs0 = group_views(groups@);
        let node = &variants[i].0;
        let member = variants[i].1;
        let ghost v = vs[i as int];
        assert(v == (node@, member));
        assert(vs.take(i + 1) =~= pre.push(v));
        let found = find_group(&groups, node);
        if let Some(j) = found {
            let mut g = groups.remove(j);
            g.members.push(member);
            groups.insert(j, g);
            assert(group_views(groups@) =~= gs0.update(j as int, (gs0[j as int].0, gs0[j as int].1.push(member))));
            proof {
                lemma_group_join(gs0, pre, v, j as int);
            }
        } else {
            let mut members: Vec<EngineRef> = Vec::new();
            members.push(member);
            let g = TechGroup { node: node.clone(), members };
            groups.push(g);
            assert(group_views(groups@) =~= gs0.push((node@, seq![member])));
            proof {
                lemma_group_open(gs0, pre, v);
            }
        }
        i = i + 1;
    }
    assert(vs.take(i as int) =~= vs);
    groups
}

/// Adding a variant to the group of its node keeps a grouping.
proof fn lemma_group_join(
    gs: Seq<(Seq<char>, Seq<EngineRef>)>,
    vs: Seq<(Seq<char>, EngineRef)>,
    v: (Seq<char>, EngineRef),
    j: int,
)
    requires
        groups_variants(gs, vs),
        0 <= j < gs.len(),
        gs[j].0 == v.0,
    ensures
        groups_variants(gs.update(j, (gs[j].0, gs[j].1.push(v.1))), vs.push(v)),
{
    let gs1 = gs.update(j, (gs[j].0, gs[j].1.push(v.1)));
    let vs1 = vs.push(v);
    assert forall|a: int| 0 <= a < gs1.len() implies #[trigger] gs1[a].1 == unlocked_by(vs1, gs1[a].0) by {
        lemma_unlocked_by_push(vs, v, gs1[a].0);
        if a != j {
            assert(gs[a].0 != gs[j].0);
        }
    }
    assert forall|k: int| 0 <= k < vs1.len() implies node_listed(gs1, #[trigger] vs1[k].0) by {
        if k < vs.len() {
            assert(vs1[k] == vs[k]);
            assert(node_listed(gs, vs[k].0));
            let a = choose|a: int| 0 <= a < gs.len() && #[trigger] gs[a].0 == vs[k].0;
            assert(gs1[a].0 == gs[a].0);
        } else {
            assert(gs1[j].0 == v.0);
        }
    }
}

/// A variant whose node has no group yet opens a new group.
proof fn lemma_group_open(
    gs: Seq<(Seq<char>, Seq<EngineRef>)>,
    vs: Seq<(Seq<char>, EngineRef)>,
    v: (Seq<char>, EngineRef),
)
    requires
        groups_variants(gs, vs),
        forall|a: int| 0 <= a < gs.len() ==> #[trigger] gs[a].0 != v.0,
    ensures
        groups_variants(gs.push((v.0, seq![v.1])), vs.push(v)),
{
    let gs1 = gs.push((v.0, seq![v.1]));
    let vs1 = vs.push(v);
    lemma_unlocked_by_absent(vs, v.0, gs);
    assert forall|a: int| 0 <= a < gs1.len() implies #[trigger] gs1[a].1 == unlocked_by(vs1, gs1[a].0) by {
        lemma_unlocked_by_push(vs, v, gs1[a].0);
        if a == gs.len() {
            assert(unlocked_by(vs1, v.0) =~= seq![v.1]);
        }
    }
    assert forall|k: int| 0 <= k < vs1.len() implies node_listed(gs1, #[trigger] vs1[k].0) by {
        if k < vs.len() {
            assert(vs1[k] == vs[k]);
            assert(node_listed(gs, vs[k].0));
            let a = choose|a: int| 0 <= a < gs.len() && #[trigger] gs[a].0 == vs[k].0;
            assert(gs1[a].0 == gs[a].0);
        } else {
            assert(gs1[gs.len() as int].0 == v.0);
        }
    }
}

/// The index of the first group for `node`, if there is one.
pub fn find_group(groups: &Vec<TechGroup>, node: &String) -> (r: Option<usize>)
    ensures
        match r {
            Some(j) => j < groups.len() && group_views(groups@)[j as int].0 == node@ && forall|a: int|
                0 <= a < j ==> #[trigger] group_views(groups@)[a].0 != node@,
            None => forall|a: int| 0 <= a < groups.len() ==> #[trigger] group_views(groups@)[a].0 != node@,
        },
{
    let mut j: usize = 0;
    while j < groups.len()
        invariant
            j <= groups.len(),
            forall|a: int| 0 <= a < j ==> #[trigger] group_views(groups@)[a].0 != node@,
        decreases groups.len() - j,
    {
        if groups[j].node == *node {
            return Some(j);
        }
        j = j + 1;
    }
    None
}

/// A node that no group of a grouping names unlocks nothing.
pub proof fn lemma_unlocked_by_absent(
    vs: Seq<(Seq<char>, EngineRef)>,
    n: Seq<char>,
    gs: Seq<(Seq<char>, Seq<EngineRef>)>,
)
    requires
        groups_variants(gs, vs),
        forall|a: int| 0 <= a < gs.len() ==> #[trigger] gs[a].0 != n,
    ensures
        unlocked_by(vs, n) == Seq::<EngineRef>::empty(),
{
    assert forall|k: int| 0 <= k < vs.len() implies #[trigger] vs[k].0 != n by {
        assert(node_listed(gs, vs[k].0));
    }
    lemma_unlocked_by_absent_prefix(vs, n);
}

/// Without an occurrence of `n` among the nodes of `vs`, `n` unlocks nothing.
pub proof fn lemma_unlocked_by_absent_prefix(vs: Seq<(Seq<char>, EngineRef)>, n: Seq<char>)
    requires
        forall|k: int| 0 <= k < vs.len() ==> #[trigger] vs[k].0 != n,
    ensures
        unlocked_by(vs, n) == Seq::<EngineRef>::empty(),
    decreases vs.len(),
{
    if vs.len() > 0 {
        lemma_unlocked_by_absent_prefix(vs.drop_last(), n);
        assert(unlocked_by(vs, n) =~= Seq::<EngineRef>::empty());
    }
}

/// The name of an engine variant shown to a user.
pub open spec fn display_name_of(name: Seq<char>, parent_name: Seq<char>) -> Seq<char> {
    if parent_name.len() == 0 {
        name
    } else {
        parent_name + ": "@ + name
    }
}

/// Returns the name of an engine variant shown to a user: its own name, or,
/// for a variant with a parent engine, the parent's name, a colon, a space
/// and its own name.
pub fn display_name(name: &str, parent_name: &str) -> (r: String)
    ensures
        r@ == display_name_of(name@, parent_name@),
{
    if parent_name.is_empty() {
        name.to_owned()
    } else {
        let mut r = parent_name.to_owned();
        r.append(": ");
        r.append(name);
        r
    }
}

/// A variant among `vs` is among those its node unlocks.
pub proof fn lemma_unlocked_by_contains(vs: Seq<(Seq<char>, EngineRef)>, k: int)
    requires
        0 <= k < vs.len(),
    ensures
        unlocked_by(vs, vs[k].0).contains(vs[k].1),
    decreases vs.len(),
{
    let n = vs[k].0;
    if k == vs.len() - 1 {
        let u = unlocked_by(vs, n);
        assert(u == unlocked_by(vs.drop_last(), n) + seq![vs[k].1]);
        assert(u[u.len() - 1] == vs[k].1);
    } else {
        assert(vs.drop_last()[k] == vs[k]);
        lemma_unlocked_by_contains(vs.drop_last(), k);
        let u0 = unlocked_by(vs.drop_last(), n);
        let j = choose|j: int| 0 <= j < u0.len() && u0[j] == vs[k].1;
        assert(unlocked_by(vs, n)[j] == vs[k].1);
    }
}

/// Every variant of engine `i` is among the variants of the catalog.
proof fn lemma_variant_in_catalog(ls: Seq<ListingView>, i: int, c: int)
    requires
        0 <= i < ls.len(),
        0 <= c < variants_of(ls[i], i).len(),
    ensures
        all_variants(ls).contains(variants_of(ls[i], i)[c]),
    decreases ls.len(),
{
    let vs = all_variants(ls);
    if i == ls.len() - 1 {
        let pre = all_variants(ls.drop_last());
        assert(vs[pre.len() + c] == variants_of(ls[i], i)[c]);
    } else {
        assert(ls.drop_last()[i] == ls[i]);
        lemma_variant_in_catalog(ls.drop_last(), i, c);
        let pre = all_variants(ls.drop_last());
        let k = choose|k: int| 0 <= k < pre.len() && pre[k] == variants_of(ls[i], i)[c];
        assert(vs[k] == pre[k]);
    }
}

/// Each engine is unlocked by its own tech-tree node, and each of its active
/// configurations by the configuration's node.
pub proof fn law_engine_unlocked_by_its_node(ls: Seq<ListingView>, i: int)
    requires
        0 <= i < ls.len(),
    ensures
        unlocked_by(all_variants(ls), ls[i].node).contains(EngineRef { engine: i as usize, config: None }),
        forall|c: int|
            0 <= c < active_count(ls[i].configs) ==> #[trigger] unlocked_by(
                all_variants(ls),
                ls[i].configs[c].1,
            ).contains(EngineRef { engine: i as usize, config: Some(c as usize) }),
{
    let vs = all_variants(ls);
    let own = variants_of(ls[i], i);
    lemma_variant_in_catalog(ls, i, 0);
    let k = choose|k: int| 0 <= k < vs.len() && vs[k] == own[0];
    lemma_unlocked_by_contains(vs, k);
    assert forall|c: int| 0 <= c < active_count(ls[i].configs) implies #[trigger] unlocked_by(
        vs,
        ls[i].configs[c].1,
    ).contains(EngineRef { engine: i as usize, config: Some(c as usize) }) by {
        lemma_variant_in_catalog(ls, i, c + 1);
        let k = choose|k: int| 0 <= k < vs.len() && vs[k] == own[c + 1];
        lemma_unlocked_by_contains(vs, k);
    }
}

} // verus!
