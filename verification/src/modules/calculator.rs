//! The selection rules of the calculator: which unlocked techs and fuselages
//! a request names, which engine variants they make available, and which
//! engines take part in a search.
use vstd::prelude::*;

use crate::modules::engines::{
    all_variants, find_group, group_views, groups_variants, lemma_unlocked_by_absent, node_listed, unlocked_by,
    EngineRef, ListingView, TechGroup,
};
use crate::modules::tanks::{hp_fuselage_name, hp_name};
use crate::modules::Error;

verus! {

/// The largest number of engines (and tank stacks) a stage is built with.
pub const MAX_ENGINES: u8 = 9;

/// The pieces of `s` between its commas, in order; a text without commas
/// is one piece, and the empty text is one empty piece.
pub open spec fn split_commas(s: Seq<char>) -> Seq<Seq<char>>
    decreases s.len(),
{
    if s.len() == 0 {
        seq![Seq::empty()]
    } else {
        let prev = split_commas(s.drop_last());
        if s.last() == ',' {
            prev.push(Seq::empty())
        } else {
            prev.update(prev.len() - 1, prev.last().push(s.last()))
        }
    }
}

/// A split always has at least one piece.
pub proof fn lemma_split_nonempty(s: Seq<char>)
    ensures
        split_commas(s).len() >= 1,
    decreases s.len(),
{
    if s.len() > 0 {
        lemma_split_nonempty(s.drop_last());
    }
}

/// The views of a sequence of strings.
pub open spec fn string_views(v: Seq<String>) -> Seq<Seq<char>> {
    v.map_values(|s: String| s@)
}

/// Splits a comma-separated list into its pieces (see `split_commas`).
pub fn split_list(list: &str) -> (r: Vec<String>)
    ensures
        string_views(r@) == split_commas(list@),
{
    let n = list.unicode_len();
    let mut pieces: Vec<String> = Vec::new();
    let mut start: usize = 0;
    let mut i: usize = 0;
    assert(list@.take(0) =~= Seq::<char>::empty());
    assert(string_views(pieces@).push(list@.subrange(0, 0)) =~= seq![Seq::<char>::empty()]);
    while i < n
        invariant
            n == list@.len(),
            start <= i <= n,
            string_views(pieces@).push(list@.subrange(start as int, i as int)) == split_commas(
                list@.take(i as int),
            ),
        decreases n - i,
    {
        let c = list.get_char(i);
        let ghost prev = split_commas(list@.take(i as int));
        assert(list@.take(i + 1).drop_last() =~= list@.take(i as int));
        assert(list@.take(i + 1).last() == c);
        proof {
            lemma_split_nonempty(list@.take(i as int));
        }
        if c == ',' {
            let piece = list.substring_char(start, i).to_owned();
            let ghost before = string_views(pieces@);
            pieces.push(piece);
            assert(string_views(pieces@) =~= before.push(piece@));
            i = i + 1;
            start = i;
            assert(list@.subrange(start as int, i as int) =~= Seq::<char>::empty());
            assert(string_views(pieces@).push(list@.subrange(start as int, i as int)) =~= prev.push(
                Seq::empty(),
            ));
        } else {
            assert(list@.subrange(start as int, i + 1) =~= list@.subrange(start as int, i as int).push(c));
            i = i + 1;
            assert(string_views(pieces@).push(list@.subrange(start as int, i as int)) =~= prev.update(
                prev.len() - 1,
                prev.last().push(c),
            ));
        }
    }
    let last = list.substring_char(start, n).to_owned();
    let ghost before = string_views(pieces@);
    pieces.push(last);
    assert(string_views(pieces@) =~= before.push(last@));
    assert(list@.take(n as int) =~= list@);
    pieces
}

/// The members of the first group for node `n`, if there is one.
pub open spec fn group_of(gs: Seq<(Seq<char>, Seq<EngineRef>)>, n: Seq<char>) -> Option<Seq<EngineRef>>
    decreases gs.len(),
{
    if gs.len() == 0 {
        None
    } else if gs[0].0 == n {
        Some(gs[0].1)
    } else {
        group_of(gs.drop_first(), n)
    }
}

/// The text of the error for a tech that no group is for.
pub open spec fn missing_tech_text(tech: Seq<char>) -> Seq<char> {
    "Tech '"@ + tech + "' was not found in the engine_tech_map"@
}

/// What a list of unlocked techs makes available, given the engine groups
/// `gs`: the members of each listed tech's group, in the order of the list,
/// a tech listed again adding nothing; or the first listed tech without a
/// group.
pub open spec fn resolve_techs(
    techs: Seq<Seq<char>>,
    gs: Seq<(Seq<char>, Seq<EngineRef>)>,
) -> Result<Seq<EngineRef>, Seq<char>>
    decreases techs.len(),
{
    if techs.len() == 0 {
        Ok(Seq::empty())
    } else {
        match resolve_techs(techs.drop_last(), gs) {
            Err(t) => Err(t),
            Ok(prev) => match group_of(gs, techs.last()) {
                None => Err(techs.last()),
                Some(m) => if techs.drop_last().contains(techs.last()) {
                    Ok(prev)
                } else {
                    Ok(prev + m)
                },
            },
        }
    }
}

/// Once a prefix of the list names a tech without a group, so does the list.
proof fn lemma_resolve_error_persists(
    techs: Seq<Seq<char>>,
    gs: Seq<(Seq<char>, Seq<EngineRef>)>,
    k: int,
)
    requires
        0 <= k <= techs.len(),
        resolve_techs(techs.take(k), gs) is Err,
    ensures
        resolve_techs(techs, gs) == resolve_techs(techs.take(k), gs),
    decreases techs.len(),
{
    if techs.len() == k {
        assert(techs.take(k) =~= techs);
    } else {
        assert(techs.drop_last().take(k) =~= techs.take(k));
        lemma_resolve_error_persists(techs.drop_last(), gs, k);
    }
}

/// The error for a tech that no engine group is for.
pub fn missing_tech(tech: &str) -> (r: Error)
    ensures
        r matches Error::MissingTech(t) && t@ == missing_tech_text(tech@),
{
    let mut t = "Tech '".to_owned();
    t.append(tech);
    t.append("' was not found in the engine_tech_map");
    Error::MissingTech(t)
}

proof fn lemma_group_of_first(gs: Seq<(Seq<char>, Seq<EngineRef>)>, n: Seq<char>, j: int)
    requires
        0 <= j < gs.len(),
        gs[j].0 == n,
        forall|a: int| 0 <= a < j ==> #[trigger] gs[a].0 != n,
    ensures
        group_of(gs, n) == Some(gs[j].1),
    decreases j,
{
    if j > 0 {
        assert forall|a: int| 0 <= a < j - 1 implies #[trigger] gs.drop_first()[a].0 != n by {
            assert(gs.drop_first()[a] == gs[a + 1]);
        }
        lemma_group_of_first(gs.drop_first(), n, j - 1);
    }
}

proof fn lemma_group_of_none(gs: Seq<(Seq<char>, Seq<EngineRef>)>, n: Seq<char>)
    requires
        forall|a: int| 0 <= a < gs.len() ==> #[trigger] gs[a].0 != n,
    ensures
        group_of(gs, n) == None::<Seq<EngineRef>>,
    decreases gs.len(),
{
    if gs.len() > 0 {
        assert forall|a: int| 0 <= a < gs.len() - 1 implies #[trigger] gs.drop_first()[a].0 != n by {
            assert(gs.drop_first()[a] == gs[a + 1]);
        }
        lemma_group_of_none(gs.drop_first(), n);
    }
}

/// Whether `items[i]` already occurs among `items[..i]`.
fn occurs_before(items: &Vec<String>, i: usize) -> (r: bool)
    requires
        i < items.len(),
    ensures
        r == string_views(items@).take(i as int).contains(string_views(items@)[i as int]),
{
    let ghost vs = string_views(items@);
    let mut k: usize = 0;
    while k < i
        invariant
            k <= i < items.len(),
            vs == string_views(items@),
            forall|a: int| 0 <= a < k ==> #[trigger] vs[a] != vs[i as int],
        decreases i - k,
    {
        if items[k] == items[i] {
            assert(vs.take(i as int)[k as int] == vs[i as int]);
            return true;
        }
        k = k + 1;
    }
    assert forall|a: int| 0 <= a < i implies #[trigger] vs.take(i as int)[a] != vs[i as int] by {
        assert(vs.take(i as int)[a] == vs[a]);
    }
    false
}

/// Resolves a comma-separated list of unlocked techs against the engine
/// groups of the catalog: the engine variants of every listed tech, tech by
/// tech in the order of the list (a tech listed twice counts once); or, if
/// a listed tech has no group, the error that names the first such tech.
pub fn resolve_unlocked_tech(unlocked_tech: &str, groups: &Vec<TechGroup>) -> (r: Result<
    Vec<EngineRef>,
    Error,
>)
    ensures
        match resolve_techs(split_commas(unlocked_tech@), group_views(groups@)) {
            Ok(m) => r matches Ok(v) && v@ == m,
            Err(t) => r matches Err(Error::MissingTech(e)) && e@ == missing_tech_text(t),
        },
{
    let techs = split_list(unlocked_tech);
    let ghost ts = string_views(techs@);
    let ghost gs = group_views(groups@);
    let mut result: Vec<EngineRef> = Vec::new();
    let mut i: usize = 0;
    while i < techs.len()
        invariant
            i <= techs.len(),
            ts == string_views(techs@),
            ts == split_commas(unlocked_tech@),
            gs == group_views(groups@),
            resolve_techs(ts.take(i as int), gs) == Ok::<Seq<EngineRef>, Seq<char>>(result@),
        decreases techs.len() - i,
    {
        let ghost prev = result@;
        assert(ts.take(i + 1).drop_last() =~= ts.take(i as int));
        assert(ts.take(i + 1).last() == techs@[i as int]@);
        let found = find_group(groups, &techs[i]);
        proof {
            match found {
                Some(j) => lemma_group_of_first(gs, ts[i as int], j as int),
                None => lemma_group_of_none(gs, ts[i as int]),
            }
        }
        match found {
            None => {
                assert(ts[i as int] == techs@[i as int]@);
                assert(resolve_techs(ts.take(i + 1), gs) == Err::<Seq<EngineRef>, Seq<char>>(ts[i as int]));
                proof {
                    lemma_resolve_error_persists(ts, gs, i + 1);
                }
                return Err(missing_tech(techs[i].as_str()));
            },
            Some(j) => {
                if !occurs_before(&techs, i) {
                    let members = &groups[j].members;
                    let mut k: usize = 0;
                    while k < members.len()
                        invariant
                            k <= members.len(),
                            result@ == prev + members@.take(k as int),
                        decreases members.len() - k,
                    {
                        result.push(members[k]);
                        k = k + 1;
                        assert(result@ =~= prev + members@.take(k as int));
                    }
                    assert(members@.take(k as int) =~= members@);
                }
            },
        }
        i = i + 1;
    }
    assert(ts.take(i as int) =~= ts);
    Ok(result)
}

/// Whether an engine takes part in a search: a solid engine never does,
/// and an engine without a gimbal does not when gimballing is asked for.
pub fn is_candidate_engine(needs_gimballing: bool, has_gimbal: bool, is_solid: bool) -> (r: bool)
    ensures
        r == (!is_solid && (has_gimbal || !needs_gimballing)),
{
    if needs_gimballing && !has_gimbal {
        return false;
    }
    !is_solid
}

/// For each fuselage of a comma-separated list of unlocked fuselages, in
/// order: the name of its high-pressure variant and its own name.
pub fn unlocked_fuselage_names(unlocked_fuselages: &str) -> (r: Vec<(String, String)>)
    ensures
        r.len() == split_commas(unlocked_fuselages@).len(),
        forall|k: int|
            0 <= k < r.len() ==> (#[trigger] r@[k]).0@ == hp_name(split_commas(unlocked_fuselages@)[k])
                && r@[k].1@ == split_commas(unlocked_fuselages@)[k],
{
    let names = split_list(unlocked_fuselages);
    let ghost ns = string_views(names@);
    let mut r: Vec<(String, String)> = Vec::new();
    let mut i: usize = 0;
    while i < names.len()
        invariant
            i <= names.len(),
            ns == string_views(names@),
            r.len() == i,
            forall|k: int| 0 <= k < i ==> (#[trigger] r@[k]).0@ == hp_name(ns[k]) && r@[k].1@ == ns[k],
        decreases names.len() - i,
    {
        let name = names[i].as_str();
        assert(name@ == ns[i as int]);
        r.push((hp_fuselage_name(name), names[i].clone()));
        i = i + 1;
    }
    r
}

/// A text without commas is a list of one piece: itself.
pub proof fn lemma_split_without_comma(s: Seq<char>)
    requires
        forall|k: int| 0 <= k < s.len() ==> s[k] != ',',
    ensures
        split_commas(s) == seq![s],
    decreases s.len(),
{
    if s.len() > 0 {
        assert forall|k: int| 0 <= k < s.drop_last().len() implies s.drop_last()[k] != ',' by {
            assert(s.drop_last()[k] == s[k]);
        }
        lemma_split_without_comma(s.drop_last());
        assert(s.drop_last().push(s.last()) =~= s);
        assert(s.last() == s[s.len() - 1]);
        assert(split_commas(s) =~= seq![s]);
    } else {
        assert(s =~= Seq::<char>::empty());
    }
}

/// In a grouping of a catalog, the group found for a node holds exactly the
/// variants that node unlocks, and there is a group for a node exactly when
/// it unlocks some variant.
pub proof fn lemma_group_of_grouping(
    gs: Seq<(Seq<char>, Seq<EngineRef>)>,
    vs: Seq<(Seq<char>, EngineRef)>,
    n: Seq<char>,
)
    requires
        groups_variants(gs, vs),
    ensures
        group_of(gs, n) == if unlocked_by(vs, n).len() > 0 {
            Some(unlocked_by(vs, n))
        } else {
            None::<Seq<EngineRef>>
        },
{
    if node_listed(gs, n) {
        let a = choose|a: int| 0 <= a < gs.len() && #[trigger] gs[a].0 == n;
        assert(forall|b: int| 0 <= b < a ==> #[trigger] gs[b].0 != gs[a].0);
        lemma_group_of_first(gs, n, a);
        assert(gs[a].1.len() > 0);
    } else {
        assert(forall|a: int| 0 <= a < gs.len() ==> #[trigger] gs[a].0 != n);
        lemma_group_of_none(gs, n);
        lemma_unlocked_by_absent(vs, n, gs);
    }
}

/// Asking, against the grouping of a catalog, for one tech (a name without
/// commas) gives exactly the engine variants that tech unlocks, or the
/// missing-tech error when it unlocks none.
pub proof fn law_resolve_single_tech(
    ls: Seq<ListingView>,
    gs: Seq<(Seq<char>, Seq<EngineRef>)>,
    tech: Seq<char>,
)
    requires
        groups_variants(gs, all_variants(ls)),
        forall|k: int| 0 <= k < tech.len() ==> tech[k] != ',',
    ensures
        resolve_techs(split_commas(tech), gs) == if unlocked_by(all_variants(ls), tech).len() > 0 {
            Ok::<Seq<EngineRef>, Seq<char>>(unlocked_by(all_variants(ls), tech))
        } else {
            Err::<Seq<EngineRef>, Seq<char>>(tech)
        },
{
    lemma_split_without_comma(tech);
    lemma_group_of_grouping(gs, all_variants(ls), tech);
    let techs = seq![tech];
    assert(techs.drop_last() =~= Seq::<Seq<char>>::empty());
    assert(resolve_techs(techs.drop_last(), gs) == Ok::<Seq<EngineRef>, Seq<char>>(Seq::empty()));
    assert(techs.last() == tech);
    assert(!techs.drop_last().contains(tech));
    assert(Seq::<EngineRef>::empty() + unlocked_by(all_variants(ls), tech) =~= unlocked_by(
        all_variants(ls),
        tech,
    ));
}

/// Naming a tech again, after a list that resolves, adds nothing.
pub proof fn law_repeated_tech_adds_nothing(
    techs: Seq<Seq<char>>,
    gs: Seq<(Seq<char>, Seq<EngineRef>)>,
    k: int,
)
    requires
        0 <= k < techs.len(),
        resolve_techs(techs, gs) is Ok,
    ensures
        resolve_techs(techs.push(techs[k]), gs) == resolve_techs(techs, gs),
{
    let t2 = techs.push(techs[k]);
    assert(t2.drop_last() =~= techs);
    assert(t2.last() == techs[k]);
    assert(techs[k] == techs[k]);
    assert(techs.contains(techs[k]));
    if group_of(gs, techs[k]) is None {
        lemma_resolved_techs_have_groups(techs, gs, k);
    }
}

/// Every tech of a list that resolves has a group.
proof fn lemma_resolved_techs_have_groups(
    techs: Seq<Seq<char>>,
    gs: Seq<(Seq<char>, Seq<EngineRef>)>,
    k: int,
)
    requires
        0 <= k < techs.len(),
        resolve_techs(techs, gs) is Ok,
    ensures
        group_of(gs, techs[k]) is Some,
    decreases techs.len(),
{
    if k < techs.len() - 1 {
        assert(techs.drop_last()[k] == techs[k]);
        lemma_resolved_techs_have_groups(techs.drop_last(), gs, k);
    }
}

/// `a` comes before `b` in the order of names: at their first difference
/// `a` has the smaller character, or `a` is a proper prefix of `b`. (The
/// order of `str`, as characters compare by their code points.)
pub open spec fn name_lt(a: Seq<char>, b: Seq<char>) -> bool
    decreases a.len(),
{
    if b.len() == 0 {
        false
    } else if a.len() == 0 {
        true
    } else if a[0] != b[0] {
        (a[0] as u32) < (b[0] as u32)
    } else {
        name_lt(a.drop_first(), b.drop_first())
    }
}

/// No name comes before itself.
pub proof fn lemma_name_lt_irreflexive(a: Seq<char>)
    ensures
        !name_lt(a, a),
    decreases a.len(),
{
    if a.len() > 0 {
        lemma_name_lt_irreflexive(a.drop_first());
    }
}

/// The order of names is transitive.
pub proof fn lemma_name_lt_transitive(a: Seq<char>, b: Seq<char>, c: Seq<char>)
    requires
        name_lt(a, b),
        name_lt(b, c),
    ensures
        name_lt(a, c),
    decreases a.len(),
{
    if a.len() > 0 && a[0] == b[0] && b[0] == c[0] {
        lemma_name_lt_transitive(a.drop_first(), b.drop_first(), c.drop_first());
    }
}

/// The views of a sequence of name pairs.
pub open spec fn pair_views(s: Seq<(String, String)>) -> Seq<(Seq<char>, Seq<char>)> {
    s.map_values(|p: (String, String)| (p.0@, p.1@))
}

/// The pairs are in the order of their second names.
pub open spec fn sorted_by_name(s: Seq<(Seq<char>, Seq<char>)>) -> bool {
    forall|i: int, j: int| 0 <= i < j < s.len() ==> !name_lt(#[trigger] s[j].1, #[trigger] s[i].1)
}

/// Whether `a` comes before `b` in the order of names.
pub fn name_less(a: &str, b: &str) -> (r: bool)
    ensures
        r == name_lt(a@, b@),
{
    let na = a.unicode_len();
    let nb = b.unicode_len();
    let mut i: usize = 0;
    assert(a@.subrange(0, na as int) =~= a@);
    assert(b@.subrange(0, nb as int) =~= b@);
    while i < na && i < nb
        invariant
            na == a@.len(),
            nb == b@.len(),
            i <= na,
            i <= nb,
            name_lt(a@, b@) == name_lt(a@.subrange(i as int, na as int), b@.subrange(i as int, nb as int)),
        decreases na - i,
    {
        let ca = a.get_char(i);
        let cb = b.get_char(i);
        let ghost sa = a@.subrange(i as int, na as int);
        let ghost sb = b@.subrange(i as int, nb as int);
        assert(sa[0] == ca && sb[0] == cb);
        if ca != cb {
            return (ca as u32) < (cb as u32);
        }
        assert(sa.drop_first() =~= a@.subrange(i + 1, na as int));
        assert(sb.drop_first() =~= b@.subrange(i + 1, nb as int));
        i = i + 1;
    }
    i < nb
}

/// The pairs of `s` whose second name is `k`, in the order of `s`.
pub open spec fn with_name(s: Seq<(Seq<char>, Seq<char>)>, k: Seq<char>) -> Seq<(Seq<char>, Seq<char>)>
    decreases s.len(),
{
    if s.len() == 0 {
        Seq::empty()
    } else {
        with_name(s.drop_last(), k) + if s.last().1 == k {
            seq![s.last()]
        } else {
            Seq::empty()
        }
    }
}

/// Selecting by second name distributes over concatenation.
pub proof fn lemma_with_name_concat(a: Seq<(Seq<char>, Seq<char>)>, b: Seq<(Seq<char>, Seq<char>)>, k: Seq<char>)
    ensures
        with_name(a + b, k) == with_name(a, k) + with_name(b, k),
    decreases b.len(),
{
    if b.len() == 0 {
        assert(a + b =~= a);
        assert(with_name(a, k) + with_name(b, k) =~= with_name(a, k));
    } else {
        lemma_with_name_concat(a, b.drop_last(), k);
        assert((a + b).drop_last() =~= a + b.drop_last());
        assert((a + b).last() == b.last());
        assert(with_name(a + b, k) =~= with_name(a, k) + with_name(b, k));
    }
}

/// Without a pair of second name `k`, nothing is selected.
proof fn lemma_with_name_absent(s: Seq<(Seq<char>, Seq<char>)>, k: Seq<char>)
    requires
        forall|j: int| 0 <= j < s.len() ==> (#[trigger] s[j]).1 != k,
    ensures
        with_name(s, k) == Seq::<(Seq<char>, Seq<char>)>::empty(),
    decreases s.len(),
{
    if s.len() > 0 {
        assert forall|j: int| 0 <= j < s.drop_last().len() implies (#[trigger] s.drop_last()[j]).1 != k by {
            assert(s.drop_last()[j] == s[j]);
        }
        lemma_with_name_absent(s.drop_last(), k);
        assert(s.last() == s[s.len() - 1]);
        assert(with_name(s, k) =~= Seq::<(Seq<char>, Seq<char>)>::empty());
    }
}

/// Inserting `x` at `p`, where no later pair has its second name, appends
/// `x` to the pairs of that name and changes the pairs of no other name.
proof fn lemma_with_name_insert(s: Seq<(Seq<char>, Seq<char>)>, p: int, x: (Seq<char>, Seq<char>), k: Seq<char>)
    requires
        0 <= p <= s.len(),
        forall|j: int| p <= j < s.len() ==> (#[trigger] s[j]).1 != x.1,
    ensures
        with_name(s.insert(p, x), k) == with_name(s, k) + if x.1 == k {
            seq![x]
        } else {
            Seq::empty()
        },
{
    let a = s.subrange(0, p);
    let b = s.subrange(p, s.len() as int);
    assert(s =~= a + b);
    assert(s.insert(p, x) =~= (a + seq![x]) + b);
    lemma_with_name_concat(a, b, k);
    lemma_with_name_concat(a + seq![x], b, k);
    lemma_with_name_concat(a, seq![x], k);
    assert(seq![x].drop_last() =~= Seq::<(Seq<char>, Seq<char>)>::empty());
    assert(with_name(Seq::<(Seq<char>, Seq<char>)>::empty(), k) =~= Seq::<(Seq<char>, Seq<char>)>::empty());
    assert(with_name(seq![x], k) =~= if x.1 == k {
        seq![x]
    } else {
        Seq::empty()
    });
    if x.1 == k {
        assert forall|j: int| 0 <= j < b.len() implies (#[trigger] b[j]).1 != k by {
            assert(b[j] == s[p + j]);
        }
        lemma_with_name_absent(b, k);
        assert(with_name(s.insert(p, x), k) =~= with_name(s, k) + seq![x]);
    } else {
        assert(with_name(s.insert(p, x), k) =~= with_name(s, k));
    }
}

/// Sorts name pairs by their second names; pairs with equal second names
/// keep their order.
pub fn sort_by_name(items: &Vec<(String, String)>) -> (r: Vec<(String, String)>)
    ensures
        pair_views(r@).to_multiset() == pair_views(items@).to_multiset(),
        sorted_by_name(pair_views(r@)),
        forall|k: Seq<char>| #[trigger] with_name(pair_views(r@), k) == with_name(pair_views(items@), k),
{
    let ghost all = pair_views(items@);
    let mut result: Vec<(String, String)> = Vec::new();
    let mut i: usize = 0;
    assert(pair_views(result@) =~= all.take(0));
    while i < items.len()
        invariant
            i <= items.len(),
            all == pair_views(items@),
            pair_views(result@).to_multiset() == all.take(i as int).to_multiset(),
            sorted_by_name(pair_views(result@)),
            forall|k: Seq<char>| #[trigger] with_name(pair_views(result@), k) == with_name(all.take(i as int), k),
        decreases items.len() - i,
    {
        let x = (items[i].0.clone(), items[i].1.clone());
        let ghost xv = (x.0@, x.1@);
        assert(xv == all[i as int]);
        let ghost rv = pair_views(result@);
        let mut p: usize = 0;
        while p < result.len() && !name_less(x.1.as_str(), result[p].1.as_str())
            invariant
                p <= result.len(),
                rv == pair_views(result@),
                xv == (x.0@, x.1@),
                forall|k: int| 0 <= k < p ==> !name_lt(xv.1, #[trigger] rv[k].1),
            decreases result.len() - p,
        {
            assert(rv[p as int].1 == result@[p as int].1@);
            p = p + 1;
        }
        if p < result.len() {
            assert(rv[p as int].1 == result@[p as int].1@);
        }
        result.insert(p, x);
        let ghost nv = rv.insert(p as int, xv);
        assert(pair_views(result@) =~= nv);
        assert forall|a: int, b: int| 0 <= a < b < nv.len() implies !name_lt(#[trigger] nv[b].1, #[trigger] nv[a].1) by {
            if a < p && b == p {
            } else if a == p && b > p {
                // rv[p] comes after x, and rv[b - 1] does not come before rv[p]
                if name_lt(nv[b].1, xv.1) {
                    lemma_name_lt_transitive(nv[b].1, xv.1, rv[p as int].1);
                    if b - 1 == p {
                        lemma_name_lt_irreflexive(rv[p as int].1);
                    } else {
                        assert(!name_lt(rv[b - 1].1, rv[p as int].1));
                    }
                }
            } else if a < p && b > p {
                assert(nv[a] == rv[a] && nv[b] == rv[b - 1]);
            } else if a > p {
                assert(nv[a] == rv[a - 1] && nv[b] == rv[b - 1]);
            } else {
                assert(nv[a] == rv[a] && nv[b] == rv[b]);
            }
        }
        assert(all.take(i + 1) =~= all.take(i as int).push(xv));
        assert forall|j: int| p <= j < rv.len() implies (#[trigger] rv[j]).1 != xv.1 by {
            lemma_name_lt_irreflexive(rv[p as int].1);
            if j > p {
                assert(!name_lt(rv[j].1, rv[p as int].1));
            }
        }
        assert forall|k: Seq<char>| #[trigger] with_name(nv, k) == with_name(all.take(i + 1), k) by {
            lemma_with_name_insert(rv, p as int, xv, k);
            assert(all.take(i + 1).drop_last() =~= all.take(i as int));
            assert(all.take(i + 1).last() == xv);
        }
        proof {
            vstd::seq_lib::to_multiset_insert(rv, p as int, xv);
            vstd::seq_lib::to_multiset_build(all.take(i as int), xv);
        }
        i = i + 1;
    }
    assert(all.take(i as int) =~= all);
    result
}

/// `a` and `b` agree on their first `i` characters, and there `a` ends
/// while `b` goes on, or `a` has the character with the smaller code point.
pub open spec fn code_point_less_at(a: Seq<char>, b: Seq<char>, i: int) -> bool {
    &&& 0 <= i <= a.len()
    &&& i <= b.len()
    &&& a.take(i) == b.take(i)
    &&& ((i == a.len() && a.len() < b.len()) || (i < a.len() && i < b.len() && (a[i] as u32) < (b[i]
        as u32)))
}

/// The order of names is the lexicographic order of code points, which is
/// the order of `str`: `a` comes before `b` exactly when, after a common
/// prefix, `a` ends first or has the smaller code point.
pub proof fn law_name_order_is_code_point_order(a: Seq<char>, b: Seq<char>)
    ensures
        name_lt(a, b) <==> exists|i: int| #[trigger] code_point_less_at(a, b, i),
    decreases a.len(),
{
    if b.len() == 0 {
        assert forall|i: int| !#[trigger] code_point_less_at(a, b, i) by {}
    } else if a.len() == 0 {
        assert(a.take(0) =~= b.take(0));
        assert(code_point_less_at(a, b, 0));
    } else if a[0] != b[0] {
        assert(a.take(0) =~= b.take(0));
        if name_lt(a, b) {
            assert(code_point_less_at(a, b, 0));
        }
        assert forall|i: int| #[trigger] code_point_less_at(a, b, i) implies name_lt(a, b) by {
            if i > 0 {
                assert(a.take(i)[0] == b.take(i)[0]);
            }
        }
    } else {
        let a1 = a.drop_first();
        let b1 = b.drop_first();
        law_name_order_is_code_point_order(a1, b1);
        if name_lt(a, b) {
            let j = choose|j: int| #[trigger] code_point_less_at(a1, b1, j);
            assert forall|k: int| 0 <= k < j + 1 implies #[trigger] a.take(j + 1)[k] == b.take(j + 1)[k] by {
                if k > 0 {
                    assert(a1.take(j)[k - 1] == b1.take(j)[k - 1]);
                }
            }
            assert(a.take(j + 1) =~= b.take(j + 1));
            if j < a1.len() && j < b1.len() {
                assert(a[j + 1] == a1[j]);
                assert(b[j + 1] == b1[j]);
            }
            assert(code_point_less_at(a, b, j + 1));
        }
        assert forall|i: int| #[trigger] code_point_less_at(a, b, i) implies name_lt(a, b) by {
            if i == 0 {
                assert(i < a.len());
            } else {
                assert forall|k: int| 0 <= k < i - 1 implies #[trigger] a1.take(i - 1)[k] == b1.take(i - 1)[k] by {
                    assert(a.take(i)[k + 1] == b.take(i)[k + 1]);
                }
                assert(a1.take(i - 1) =~= b1.take(i - 1));
                if i < a.len() {
                    assert(a1[i - 1] == a[i]);
                    assert(b1[i - 1] == b[i]);
                }
                assert(code_point_less_at(a1, b1, i - 1));
            }
        }
    }
}

/// Splitting at the commas of a list joined with a comma splits each part:
/// the pieces of `a,b` are the pieces of `a` followed by the pieces of `b`.
pub proof fn law_split_joined(a: Seq<char>, b: Seq<char>)
    ensures
        split_commas(a + seq![','] + b) == split_commas(a) + split_commas(b),
    decreases b.len(),
{
    let s = a + seq![','] + b;
    if b.len() == 0 {
        assert(s =~= a.push(','));
        assert(s.drop_last() =~= a);
        assert(split_commas(b) =~= seq![Seq::<char>::empty()]);
        assert(split_commas(s) =~= split_commas(a) + split_commas(b));
    } else {
        let b1 = b.drop_last();
        let c = b.last();
        law_split_joined(a, b1);
        lemma_split_nonempty(b1);
        assert(s.drop_last() =~= a + seq![','] + b1);
        assert(s.last() == c);
        let pa = split_commas(a);
        let pb = split_commas(b1);
        if c == ',' {
            assert(split_commas(s) =~= pa + pb.push(Seq::empty()));
        } else {
            assert((pa + pb).last() == pb.last());
            assert(split_commas(s) =~= pa + pb.update(pb.len() - 1, pb.last().push(c)));
        }
        assert(split_commas(b) == if c == ',' {
            pb.push(Seq::empty())
        } else {
            pb.update(pb.len() - 1, pb.last().push(c))
        });
    }
}

/// No piece of a split holds a comma.
pub proof fn law_split_pieces_have_no_comma(s: Seq<char>)
    ensures
        forall|p: int, k: int|
            0 <= p < split_commas(s).len() && 0 <= k < split_commas(s)[p].len() ==> #[trigger] split_commas(
                s,
            )[p][k] != ',',
    decreases s.len(),
{
    if s.len() > 0 {
        law_split_pieces_have_no_comma(s.drop_last());
        lemma_split_nonempty(s.drop_last());
        let prev = split_commas(s.drop_last());
        if s.last() != ',' {
            let last = prev.last().push(s.last());
            assert forall|k: int| 0 <= k < last.len() implies last[k] != ',' by {
                if k < prev.last().len() {
                    assert(last[k] == prev[prev.len() - 1][k]);
                }
            }
        }
    }
}

/// Naming one more tech, that has a group and was not named before, after a
/// list that resolves adds exactly that tech's group to the result.
pub proof fn law_resolve_appends_new_tech(
    techs: Seq<Seq<char>>,
    gs: Seq<(Seq<char>, Seq<EngineRef>)>,
    t: Seq<char>,
    a: Seq<EngineRef>,
    m: Seq<EngineRef>,
)
    requires
        resolve_techs(techs, gs) == Ok::<Seq<EngineRef>, Seq<char>>(a),
        group_of(gs, t) == Some(m),
        !techs.contains(t),
    ensures
        resolve_techs(techs.push(t), gs) == Ok::<Seq<EngineRef>, Seq<char>>(a + m),
{
    assert(techs.push(t).drop_last() =~= techs);
    assert(techs.push(t).last() == t);
}

/// Against the grouping of a catalog, a list of distinct techs that each
/// unlock something resolves to what each unlocks, tech after tech in the
/// order of the list.
pub proof fn law_resolve_distinct_techs(
    ls: Seq<ListingView>,
    gs: Seq<(Seq<char>, Seq<EngineRef>)>,
    techs: Seq<Seq<char>>,
)
    requires
        groups_variants(gs, all_variants(ls)),
        forall|i: int, j: int| 0 <= i < j < techs.len() ==> techs[i] != techs[j],
        forall|i: int| 0 <= i < techs.len() ==> #[trigger] unlocked_by(all_variants(ls), techs[i]).len() > 0,
    ensures
        resolve_techs(techs, gs) == Ok::<Seq<EngineRef>, Seq<char>>(
            techs.map_values(|t: Seq<char>| unlocked_by(all_variants(ls), t)).flatten(),
        ),
    decreases techs.len(),
{
    let vs = all_variants(ls);
    let f = |t: Seq<char>| unlocked_by(vs, t);
    if techs.len() == 0 {
        assert(techs.map_values(f) =~= Seq::<Seq<EngineRef>>::empty());
    } else {
        let t0 = techs.drop_last();
        let t = techs.last();
        assert forall|i: int| 0 <= i < t0.len() implies #[trigger] unlocked_by(vs, t0[i]).len() > 0 by {
            assert(t0[i] == techs[i]);
        }
        law_resolve_distinct_techs(ls, gs, t0);
        lemma_group_of_grouping(gs, vs, t);
        assert(unlocked_by(vs, techs[techs.len() - 1]).len() > 0);
        assert(!t0.contains(t)) by {
            if t0.contains(t) {
                let k = choose|k: int| 0 <= k < t0.len() && t0[k] == t;
                assert(techs[k] == techs[techs.len() - 1]);
            }
        }
        assert(t0.push(t) =~= techs);
        law_resolve_appends_new_tech(t0, gs, t, t0.map_values(f).flatten(), f(t));
        assert(techs.map_values(f) =~= t0.map_values(f).push(f(t)));
        t0.map_values(f).lemma_flatten_push(f(t));
    }
}

} // verus!
