//! Fuel tanks and the stacks that are built from them.
//!
//! Masses are held in whole kilograms; every tank of the catalog has a mass
//! that is a whole number of kilograms, so sums over a stack are exact.
use vstd::prelude::*;

use crate::modules::fuel_type::FuelType;
use crate::modules::size::Size;

verus! {

/// A fuel tank. Masses are in kilograms.
#[derive(Debug)]
pub struct Tank {
    pub name: String,
    pub wet_mass: u32,
    pub dry_mass: u32,
    pub size: Size,
    pub cost: i64,
    pub fuel_type: FuelType,
}

/// The mathematical value of a tank: its name as a sequence of characters
/// and its other fields as they are.
pub struct TankView {
    pub name: Seq<char>,
    pub wet_mass: u32,
    pub dry_mass: u32,
    pub size: Size,
    pub cost: i64,
    pub fuel_type: FuelType,
}

impl View for Tank {
    type V = TankView;

    open spec fn view(&self) -> TankView {
        TankView {
            name: self.name@,
            wet_mass: self.wet_mass,
            dry_mass: self.dry_mass,
            size: self.size,
            cost: self.cost,
            fuel_type: self.fuel_type,
        }
    }
}

impl Clone for Tank {
    fn clone(&self) -> (r: Self)
        ensures
            r@ == self@,
    {
        Tank {
            name: self.name.clone(),
            wet_mass: self.wet_mass,
            dry_mass: self.dry_mass,
            size: self.size,
            cost: self.cost,
            fuel_type: self.fuel_type,
        }
    }
}

/// The kinds of tank a stage can mount.
#[derive(Debug, Clone, Copy, PartialEq, Eq, Structural)]
pub enum TankType {
    NoseTank,
    CylindricalTank,
    RadialTank,
}

/// How many tanks of a kind a stage can mount.
pub open spec fn max_tanks(t: TankType) -> u8 {
    match t {
        TankType::NoseTank => 1,
        TankType::CylindricalTank => 4,
        TankType::RadialTank => 8,
    }
}

impl TankType {
    /// Returns how many tanks of this kind a stage can mount: one nose
    /// tank, four cylindrical tanks or eight radial tanks.
    pub fn get_max_tanks(&self) -> (r: u8)
        ensures
            r == max_tanks(*self),
    {
        match self {
            TankType::NoseTank => 1,
            TankType::CylindricalTank => 4,
            TankType::RadialTank => 8,
        }
    }
}

/// A stack of tanks mounted on top of each other. Its size and fuel type
/// are those of its first tank.
#[derive(Debug, Clone)]
pub struct FuelStack {
    pub tanks: Vec<Tank>,
    pub size: Size,
    pub fuel_type: FuelType,
}

/// The mathematical value of a stack.
pub struct FuelStackView {
    pub tanks: Seq<TankView>,
    pub size: Size,
    pub fuel_type: FuelType,
}

/// The views of a sequence of tanks.
pub open spec fn tank_views(ts: Seq<Tank>) -> Seq<TankView> {
    ts.map_values(|t: Tank| t@)
}

impl View for FuelStack {
    type V = FuelStackView;

    open spec fn view(&self) -> FuelStackView {
        FuelStackView { tanks: tank_views(self.tanks@), size: self.size, fuel_type: self.fuel_type }
    }
}

/// The stack made of the tanks `ts`, which takes its size and fuel type from
/// the first of them.
pub open spec fn stack_of(ts: Seq<TankView>) -> FuelStackView {
    FuelStackView { tanks: ts, size: ts[0].size, fuel_type: ts[0].fuel_type }
}

/// `n` copies of the tank `t`.
pub open spec fn copies(t: TankView, n: nat) -> Seq<TankView> {
    Seq::new(n, |i: int| t)
}

/// The sum of the wet masses of a sequence of tanks.
pub open spec fn total_wet(ts: Seq<TankView>) -> int
    decreases ts.len(),
{
    if ts.len() == 0 {
        0
    } else {
        total_wet(ts.drop_last()) + ts.last().wet_mass
    }
}

/// The sum of the dry masses of a sequence of tanks.
pub open spec fn total_dry(ts: Seq<TankView>) -> int
    decreases ts.len(),
{
    if ts.len() == 0 {
        0
    } else {
        total_dry(ts.drop_last()) + ts.last().dry_mass
    }
}

/// The names of a sequence of tanks, each after the first separated from
/// the text before it by a comma and a space; a separator is only written
/// once the text so far is not empty.
pub open spec fn joined_names(ts: Seq<TankView>) -> Seq<char>
    decreases ts.len(),
{
    if ts.len() == 0 {
        Seq::empty()
    } else {
        let prev = joined_names(ts.drop_last());
        if prev.len() == 0 {
            ts.last().name
        } else {
            prev + ", "@ + ts.last().name
        }
    }
}

impl FuelStack {
    /// Makes a stack from a non-empty list of tanks; the stack has the size
    /// and fuel type of the first tank.
    pub fn new(tanks: Vec<Tank>) -> (r: Self)
        requires
            tanks.len() > 0,
        ensures
            r.tanks@ == tanks@,
            r@ == stack_of(tank_views(tanks@)),
    {
        let size = tanks[0].size;
        let fuel_type = tanks[0].fuel_type;
        FuelStack { tanks, size, fuel_type }
    }

    /// Makes a stack of `count` copies of `tank`.
    pub fn multiple(tank: &Tank, count: u8) -> (r: Self)
        requires
            count > 0,
        ensures
            r@ == stack_of(copies(tank@, count as nat)),
    {
        let mut tanks: Vec<Tank> = Vec::new();
        let mut k: u8 = 0;
        while k < count
            invariant
                k <= count,
                tank_views(tanks@) == copies(tank@, k as nat),
            decreases count - k,
        {
            let c = tank.clone();
            let ghost before = tanks@;
            tanks.push(c);
            assert(tanks@ =~= before.push(c));
            assert(tank_views(tanks@) =~= tank_views(before).push(c@));
            k = k + 1;
            assert(tank_views(tanks@) =~= copies(tank@, k as nat));
        }
        FuelStack::new(tanks)
    }

    /// The wet mass of the stack in kilograms: the sum of the wet masses of
    /// its tanks.
    pub fn get_wet_mass(&self) -> (r: u64)
        requires
            self.tanks.len() <= u32::MAX,
        ensures
            r == total_wet(self@.tanks),
    {
        let ghost ts = self@.tanks;
        let mut result: u64 = 0;
        let mut i: usize = 0;
        while i < self.tanks.len()
            invariant
                ts == tank_views(self.tanks@),
                self.tanks.len() <= u32::MAX,
                i <= self.tanks.len(),
                result == total_wet(ts.take(i as int)),
                result <= i * (u32::MAX as int),
            decreases self.tanks.len() - i,
        {
            assert(ts.take(i + 1).drop_last() =~= ts.take(i as int));
            result = result + self.tanks[i].wet_mass as u64;
            i = i + 1;
        }
        assert(ts.take(i as int) =~= ts);
        result
    }

    /// The dry mass of the stack in kilograms: the sum of the dry masses of
    /// its tanks.
    pub fn get_dry_mass(&self) -> (r: u64)
        requires
            self.tanks.len() <= u32::MAX,
        ensures
            r == total_dry(self@.tanks),
    {
        let ghost ts = self@.tanks;
        let mut result: u64 = 0;
        let mut i: usize = 0;
        while i < self.tanks.len()
            invariant
                ts == tank_views(self.tanks@),
                self.tanks.len() <= u32::MAX,
                i <= self.tanks.len(),
                result == total_dry(ts.take(i as int)),
                result <= i * (u32::MAX as int),
            decreases self.tanks.len() - i,
        {
            assert(ts.take(i + 1).drop_last() =~= ts.take(i as int));
            result = result + self.tanks[i].dry_mass as u64;
            i = i + 1;
        }
        assert(ts.take(i as int) =~= ts);
        result
    }

    /// The names of the stack's tanks, separated by a comma and a space.
    pub fn get_name(&self) -> (r: String)
        ensures
            r@ == joined_names(self@.tanks),
    {
        let ghost ts = self@.tanks;
        let mut result = String::new();
        let mut i: usize = 0;
        while i < self.tanks.len()
            invariant
                ts == tank_views(self.tanks@),
                i <= self.tanks.len(),
                result@ == joined_names(ts.take(i as int)),
            decreases self.tanks.len() - i,
        {
            assert(ts.take(i + 1).drop_last() =~= ts.take(i as int));
            if !result.as_str().is_empty() {
                result.append(", ");
            }
            result.append(self.tanks[i].name.as_str());
            i = i + 1;
        }
        assert(ts.take(i as int) =~= ts);
        result
    }
}

/// The tank with the given fields.
pub open spec fn tank_view(
    name: Seq<char>,
    wet_mass: u32,
    dry_mass: u32,
    size: Size,
    fuel_type: FuelType,
) -> TankView {
    TankView { name, wet_mass, dry_mass, size, cost: 0, fuel_type }
}

/// The small tank of which stacks of one to sixteen are offered.
pub open spec fn oscar() -> TankView {
    tank_view("Oscar-B"@, 100, 10, Size::Xs, FuelType::Methalox)
}

/// The methalox tanks of the catalog: four size classes, each with four
/// tanks from the smallest to the largest.
pub open spec fn methalox_tanks() -> Seq<TankView> {
    seq![
        tank_view("FL-T100"@, 560, 60, Size::Sm, FuelType::Methalox),
        tank_view("FL-T200"@, 1130, 130, Size::Sm, FuelType::Methalox),
        tank_view("FL-T400"@, 2250, 250, Size::Sm, FuelType::Methalox),
        tank_view("FL-T800"@, 4500, 500, Size::Sm, FuelType::Methalox),
        tank_view("X200-8"@, 4500, 500, Size::Md, FuelType::Methalox),
        tank_view("X200-16"@, 9000, 1000, Size::Md, FuelType::Methalox),
        tank_view("X200-32"@, 18000, 2000, Size::Md, FuelType::Methalox),
        tank_view("X200-64"@, 36000, 4000, Size::Md, FuelType::Methalox),
        tank_view("S3-3600"@, 20250, 2250, Size::Lg, FuelType::Methalox),
        tank_view("S3-7200"@, 40500, 4500, Size::Lg, FuelType::Methalox),
        tank_view("S3-14400"@, 81000, 9000, Size::Lg, FuelType::Methalox),
        tank_view("S3-28800"@, 162000, 18000, Size::Lg, FuelType::Methalox),
        tank_view("S4-6400"@, 36000, 4000, Size::Xl, FuelType::Methalox),
        tank_view("S4-12800"@, 72000, 8000, Size::Xl, FuelType::Methalox),
        tank_view("S4-25600"@, 144000, 16000, Size::Xl, FuelType::Methalox),
        tank_view("S4-53200"@, 288000, 32000, Size::Xl, FuelType::Methalox),
    ]
}

/// The four tanks of size group `g`, smallest first.
pub open spec fn size_group(g: int) -> Seq<TankView> {
    methalox_tanks().subrange(4 * g, 4 * g + 4)
}

/// The tanks of a four-tank group `b` selected by the bits of `mask`
/// (bit `k` selects `b[k]`), in the order of the group.
pub open spec fn subset_of(b: Seq<TankView>, mask: int) -> Seq<TankView> {
    (if mask % 2 == 1 { seq![b[0]] } else { Seq::empty() })
        + (if (mask / 2) % 2 == 1 { seq![b[1]] } else { Seq::empty() })
        + (if (mask / 4) % 2 == 1 { seq![b[2]] } else { Seq::empty() })
        + (if (mask / 8) % 2 == 1 { seq![b[3]] } else { Seq::empty() })
}

/// Exactly the stacks the catalog offers, in order: first `i + 1` small
/// tanks for each `i` below sixteen; then, for each of the four size groups,
/// every non-empty selection of its tanks in the order of the selection
/// masks one to fifteen, and two of its largest tank.
pub open spec fn is_tank_catalog(r: Seq<FuelStackView>) -> bool {
    &&& r.len() == 80
    &&& forall|i: int| 0 <= i < 16 ==> #[trigger] r[i] == stack_of(copies(oscar(), (i + 1) as nat))
    &&& forall|g: int, m: int|
        0 <= g < 4 && 1 <= m < 16 ==> #[trigger] r[16 + 16 * g + m - 1] == stack_of(subset_of(size_group(g), m))
    &&& forall|g: int|
        0 <= g < 4 ==> #[trigger] r[16 + 16 * g + 15] == stack_of(seq![size_group(g)[3], size_group(g)[3]])
}

/// The views of a sequence of stacks.
pub open spec fn stack_views(s: Seq<FuelStack>) -> Seq<FuelStackView> {
    s.map_values(|f: FuelStack| f@)
}

impl Tank {
    /// Makes a tank; masses are in kilograms.
    pub fn new(
        name: &str,
        wet_mass: u32,
        dry_mass: u32,
        size: Size,
        cost: i64,
        fuel_type: FuelType,
    ) -> (r: Self)
        ensures
            r@ == (TankView { name: name@, wet_mass, dry_mass, size, cost, fuel_type }),
    {
        Tank { name: name.to_owned(), wet_mass, dry_mass, size, cost, fuel_type }
    }

    /// The stack configurations the calculator considers (see
    /// `is_tank_catalog`).
    pub fn init_tanks() -> (r: Vec<FuelStack>)
        ensures
            is_tank_catalog(stack_views(r@)),
    {
        let mut tanks: Vec<Tank> = Vec::new();
        tanks.push(Tank::new("FL-T100", 560, 60, Size::Sm, 0, FuelType::Methalox));
        tanks.push(Tank::new("FL-T200", 1130, 130, Size::Sm, 0, FuelType::Methalox));
        tanks.push(Tank::new("FL-T400", 2250, 250, Size::Sm, 0, FuelType::Methalox));
        tanks.push(Tank::new("FL-T800", 4500, 500, Size::Sm, 0, FuelType::Methalox));
        tanks.push(Tank::new("X200-8", 4500, 500, Size::Md, 0, FuelType::Methalox));
        tanks.push(Tank::new("X200-16", 9000, 1000, Size::Md, 0, FuelType::Methalox));
        tanks.push(Tank::new("X200-32", 18000, 2000, Size::Md, 0, FuelType::Methalox));
        tanks.push(Tank::new("X200-64", 36000, 4000, Size::Md, 0, FuelType::Methalox));
        tanks.push(Tank::new("S3-3600", 20250, 2250, Size::Lg, 0, FuelType::Methalox));
        tanks.push(Tank::new("S3-7200", 40500, 4500, Size::Lg, 0, FuelType::Methalox));
        tanks.push(Tank::new("S3-14400", 81000, 9000, Size::Lg, 0, FuelType::Methalox));
        tanks.push(Tank::new("S3-28800", 162000, 18000, Size::Lg, 0, FuelType::Methalox));
        tanks.push(Tank::new("S4-6400", 36000, 4000, Size::Xl, 0, FuelType::Methalox));
        tanks.push(Tank::new("S4-12800", 72000, 8000, Size::Xl, 0, FuelType::Methalox));
        tanks.push(Tank::new("S4-25600", 144000, 16000, Size::Xl, 0, FuelType::Methalox));
        tanks.push(Tank::new("S4-53200", 288000, 32000, Size::Xl, 0, FuelType::Methalox));
        assert(tank_views(tanks@) =~= methalox_tanks());

        let mut result: Vec<FuelStack> = Vec::new();

        let oscar_tank = Tank::new("Oscar-B", 100, 10, Size::Xs, 0, FuelType::Methalox);
        let mut i: u8 = 1;
        while i <= 16
            invariant
                1 <= i <= 17,
                oscar_tank@ == oscar(),
                result.len() == i - 1,
                forall|j: int| 0 <= j < i - 1 ==> #[trigger] stack_views(result@)[j] == stack_of(copies(oscar(), (j + 1) as nat)),
            decreases 17 - i,
        {
            let stack = FuelStack::multiple(&oscar_tank, i);
            proof {
                lemma_stack_views_push(result@, stack);
            }
            result.push(stack);
            i = i + 1;
        }

        let mut g: usize = 0;
        while g < 4
            invariant
                g <= 4,
                tank_views(tanks@) == methalox_tanks(),
                tanks.len() == 16,
                result.len() == 16 + 16 * g,
                forall|j: int| 0 <= j < 16 ==> #[trigger] stack_views(result@)[j] == stack_of(copies(oscar(), (j + 1) as nat)),
                forall|h: int, m: int|
                    0 <= h < g && 1 <= m < 16 ==> #[trigger] stack_views(result@)[16 + 16 * h + m - 1] == stack_of(subset_of(size_group(h), m)),
                forall|h: int|
                    0 <= h < g ==> #[trigger] stack_views(result@)[16 + 16 * h + 15] == stack_of(seq![size_group(h)[3], size_group(h)[3]]),
            decreases 4 - g,
        {
            let base = 4 * g;
            let ghost group = size_group(g as int);
            assert forall|k: int| 0 <= k < 4 implies #[trigger] group[k] == tanks@[base + k]@ by {
                assert(tank_views(tanks@)[base + k] == tanks@[base + k]@);
            }
            let mut mask: u8 = 1;
            while mask < 16
                invariant
                    g < 4,
                    base == 4 * g,
                    1 <= mask <= 16,
                    tank_views(tanks@) == methalox_tanks(),
                    tanks.len() == 16,
                    group == size_group(g as int),
                    forall|k: int| 0 <= k < 4 ==> #[trigger] group[k] == tanks@[base + k]@,
                    result.len() == 16 + 16 * g + mask - 1,
                    forall|j: int| 0 <= j < 16 ==> #[trigger] stack_views(result@)[j] == stack_of(copies(oscar(), (j + 1) as nat)),
                    forall|h: int, m: int|
                        0 <= h < g && 1 <= m < 16 ==> #[trigger] stack_views(result@)[16 + 16 * h + m - 1] == stack_of(subset_of(size_group(h), m)),
                    forall|h: int|
                        0 <= h < g ==> #[trigger] stack_views(result@)[16 + 16 * h + 15] == stack_of(seq![size_group(h)[3], size_group(h)[3]]),
                    forall|m: int| 1 <= m < mask ==> #[trigger] stack_views(result@)[16 + 16 * g + m - 1] == stack_of(subset_of(group, m)),
                decreases 16 - mask,
            {
                let stack = FuelStack::new(select_tanks(&tanks, base, mask));
                assert(tank_views(tanks@).subrange(base as int, base + 4) =~= group);
                proof {
                    lemma_stack_views_push(result@, stack);
                }
                result.push(stack);
                mask = mask + 1;
            }
            let pair = vec![tanks[base + 3].clone(), tanks[base + 3].clone()];
            assert(tank_views(pair@) =~= seq![group[3], group[3]]);
            let last = FuelStack::new(pair);
            proof {
                lemma_stack_views_push(result@, last);
            }
            result.push(last);
            g = g + 1;
        }
        result
    }
}

proof fn lemma_stack_views_push(s: Seq<FuelStack>, x: FuelStack)
    ensures
        stack_views(s.push(x)) == stack_views(s).push(x@),
{
    assert(stack_views(s.push(x)) =~= stack_views(s).push(x@));
}

/// The tanks among `tanks[base..base + 4]` that the bits of `mask` select.
fn select_tanks(tanks: &Vec<Tank>, base: usize, mask: u8) -> (r: Vec<Tank>)
    requires
        base + 4 <= tanks.len(),
        1 <= mask < 16,
    ensures
        r.len() > 0,
        tank_views(r@) == subset_of(tank_views(tanks@).subrange(base as int, base + 4), mask as int),
{
    let ghost b = tank_views(tanks@).subrange(base as int, base + 4);
    let mut r: Vec<Tank> = Vec::new();
    if mask % 2 == 1 {
        r.push(tanks[base].clone());
    }
    assert(tank_views(r@) =~= (if mask % 2 == 1 { seq![b[0]] } else { Seq::empty() }));
    let ghost r0 = tank_views(r@);
    if (mask / 2) % 2 == 1 {
        r.push(tanks[base + 1].clone());
    }
    assert(tank_views(r@) =~= r0 + (if (mask / 2) % 2 == 1 { seq![b[1]] } else { Seq::empty() }));
    let ghost r1 = tank_views(r@);
    if (mask / 4) % 2 == 1 {
        r.push(tanks[base + 2].clone());
    }
    assert(tank_views(r@) =~= r1 + (if (mask / 4) % 2 == 1 { seq![b[2]] } else { Seq::empty() }));
    let ghost r2 = tank_views(r@);
    if (mask / 8) % 2 == 1 {
        r.push(tanks[base + 3].clone());
    }
    assert(tank_views(r@) =~= r2 + (if (mask / 8) % 2 == 1 { seq![b[3]] } else { Seq::empty() }));
    r
}

/// A stack of `n` copies of one tank weighs `n` times that tank, wet and
/// dry.
pub proof fn law_multiple_masses(t: TankView, n: nat)
    ensures
        total_wet(copies(t, n)) == n * t.wet_mass,
        total_dry(copies(t, n)) == n * t.dry_mass,
    decreases n,
{
    if n > 0 {
        law_multiple_masses(t, (n - 1) as nat);
        let s = copies(t, n);
        assert(s.drop_last() =~= copies(t, (n - 1) as nat));
        assert(s.last() == t);
        assert(total_wet(s) == total_wet(s.drop_last()) + t.wet_mass);
        assert(total_dry(s) == total_dry(s.drop_last()) + t.dry_mass);
        assert(n * t.wet_mass == (n - 1) * t.wet_mass + t.wet_mass) by (nonlinear_arith);
        assert(n * t.dry_mass == (n - 1) * t.dry_mass + t.dry_mass) by (nonlinear_arith);
    } else {
        assert(copies(t, n).len() == 0);
    }
}

/// Putting two stacks on top of each other adds their masses, wet and dry.
pub proof fn law_masses_add(a: Seq<TankView>, b: Seq<TankView>)
    ensures
        total_wet(a + b) == total_wet(a) + total_wet(b),
        total_dry(a + b) == total_dry(a) + total_dry(b),
    decreases b.len(),
{
    if b.len() == 0 {
        assert(a + b =~= a);
    } else {
        law_masses_add(a, b.drop_last());
        assert((a + b).drop_last() =~= a + b.drop_last());
    }
}

/// The tanks of size group `g` share its size and its fuel type and each
/// is heavier wet than dry.
proof fn lemma_size_group(g: int)
    requires
        0 <= g < 4,
    ensures
        forall|k: int| 0 <= k < 4 ==> (#[trigger] size_group(g)[k]).size == size_group(g)[0].size
            && size_group(g)[k].fuel_type == size_group(g)[0].fuel_type
            && size_group(g)[k].dry_mass < size_group(g)[k].wet_mass,
        size_group(g)[0].size == group_size_class(g),
        size_group(g)[0].fuel_type == FuelType::Methalox,
        size_group(g)[0].wet_mass < size_group(g)[1].wet_mass,
        size_group(g)[1].wet_mass < size_group(g)[2].wet_mass,
        size_group(g)[2].wet_mass < size_group(g)[3].wet_mass,
{
    let m = methalox_tanks();
    assert(size_group(g) =~= seq![m[4 * g], m[4 * g + 1], m[4 * g + 2], m[4 * g + 3]]);
    if g == 0 {
    } else if g == 1 {
    } else if g == 2 {
    } else {
    }
}

proof fn lemma_subset_nonempty_uniform(b: Seq<TankView>, mask: int)
    requires
        b.len() == 4,
        1 <= mask < 16,
        forall|k: int| 0 <= k < 4 ==> (#[trigger] b[k]).size == b[0].size && b[k].fuel_type == b[0].fuel_type
            && b[k].dry_mass < b[k].wet_mass,
    ensures
        subset_of(b, mask).len() > 0,
        forall|k: int|
            0 <= k < subset_of(b, mask).len() ==> (#[trigger] subset_of(b, mask)[k]).size == b[0].size
                && subset_of(b, mask)[k].fuel_type == b[0].fuel_type
                && subset_of(b, mask)[k].dry_mass < subset_of(b, mask)[k].wet_mass,
{
    let s = subset_of(b, mask);
    assert forall|k: int| 0 <= k < s.len() implies exists|j: int| 0 <= j < 4 && #[trigger] s[k] == b[j] by {
        let p0: Seq<TankView> = if mask % 2 == 1 { seq![b[0]] } else { Seq::empty() };
        let p1: Seq<TankView> = if (mask / 2) % 2 == 1 { seq![b[1]] } else { Seq::empty() };
        let p2: Seq<TankView> = if (mask / 4) % 2 == 1 { seq![b[2]] } else { Seq::empty() };
        let p3: Seq<TankView> = if (mask / 8) % 2 == 1 { seq![b[3]] } else { Seq::empty() };
        assert(s == p0 + p1 + p2 + p3);
        if k < p0.len() {
            assert(s[k] == b[0]);
        } else if k < p0.len() + p1.len() {
            assert(s[k] == b[1]);
        } else if k < p0.len() + p1.len() + p2.len() {
            assert(s[k] == b[2]);
        } else {
            assert(s[k] == b[3]);
        }
    }
}

/// A sequence of tanks each heavier wet than dry is, when it is not empty,
/// heavier wet than dry.
pub proof fn law_fuel_adds_mass(ts: Seq<TankView>)
    requires
        ts.len() > 0,
        forall|k: int| 0 <= k < ts.len() ==> (#[trigger] ts[k]).dry_mass < ts[k].wet_mass,
    ensures
        total_dry(ts) < total_wet(ts),
    decreases ts.len(),
{
    assert(ts.last() == ts[ts.len() - 1]);
    if ts.len() > 1 {
        assert forall|k: int| 0 <= k < ts.drop_last().len() implies (#[trigger] ts.drop_last()[k]).dry_mass
            < ts.drop_last()[k].wet_mass by {
            assert(ts.drop_last()[k] == ts[k]);
        }
        law_fuel_adds_mass(ts.drop_last());
    } else {
        assert(ts.drop_last().len() == 0);
        assert(total_wet(ts.drop_last()) == 0);
        assert(total_dry(ts.drop_last()) == 0);
    }
}

/// Every stack of the tank catalog is made of at least one tank, all its
/// tanks have the stack's size and fuel type, and it is heavier wet than
/// dry.
pub proof fn law_catalog_stacks_uniform(r: Seq<FuelStackView>)
    requires
        is_tank_catalog(r),
    ensures
        forall|i: int|
            0 <= i < r.len() ==> {
                &&& (#[trigger] r[i]).tanks.len() > 0
                &&& forall|k: int|
                    0 <= k < r[i].tanks.len() ==> (#[trigger] r[i].tanks[k]).size == r[i].size
                        && r[i].tanks[k].fuel_type == r[i].fuel_type
                &&& total_dry(r[i].tanks) < total_wet(r[i].tanks)
            },
{
    assert forall|i: int| 0 <= i < r.len() implies {
        &&& (#[trigger] r[i]).tanks.len() > 0
        &&& forall|k: int|
            0 <= k < r[i].tanks.len() ==> (#[trigger] r[i].tanks[k]).size == r[i].size
                && r[i].tanks[k].fuel_type == r[i].fuel_type
        &&& total_dry(r[i].tanks) < total_wet(r[i].tanks)
    } by {
        if i < 16 {
            assert(r[i] == stack_of(copies(oscar(), (i + 1) as nat)));
            law_fuel_adds_mass(r[i].tanks);
        } else {
            let g = (i - 16) / 16;
            let j = (i - 16) % 16;
            assert(0 <= g < 4);
            assert(i == 16 + 16 * g + j);
            lemma_size_group(g);
            let b = size_group(g);
            if j < 15 {
                let m = j + 1;
                assert(r[16 + 16 * g + m - 1] == stack_of(subset_of(b, m)));
                lemma_subset_nonempty_uniform(b, m);
                law_fuel_adds_mass(r[i].tanks);
            } else {
                assert(r[16 + 16 * g + 15] == stack_of(seq![b[3], b[3]]));
                assert(b[3].dry_mass < b[3].wet_mass);
                law_fuel_adds_mass(r[i].tanks);
            }
        }
    }
}

/// The size class of the tanks of size group `g`: the groups go from the
/// small class up to the extra-large one.
pub open spec fn group_size_class(g: int) -> Size {
    if g == 0 {
        Size::Sm
    } else if g == 1 {
        Size::Md
    } else if g == 2 {
        Size::Lg
    } else {
        Size::Xl
    }
}

/// The stacks of the catalog have the sizes of their families: the small
/// tanks' stacks are extra small, and the stacks of the four size groups are
/// small, medium, large and extra large in turn; all are methalox. Within a
/// group, the one-tank stacks (selection masks 1, 2, 4, 8) hold ever heavier
/// tanks.
pub proof fn law_catalog_sizes(r: Seq<FuelStackView>)
    requires
        is_tank_catalog(r),
    ensures
        forall|i: int| 0 <= i < 16 ==> (#[trigger] r[i]).size == Size::Xs && r[i].fuel_type == FuelType::Methalox,
        forall|g: int, j: int|
            0 <= g < 4 && 0 <= j < 16 ==> (#[trigger] r[16 + 16 * g + j]).size == group_size_class(g)
                && r[16 + 16 * g + j].fuel_type == FuelType::Methalox,
        forall|g: int|
            0 <= g < 4 ==> {
                &&& (#[trigger] r[16 + 16 * g]).tanks.len() == 1
                &&& r[16 + 16 * g + 1].tanks.len() == 1
                &&& r[16 + 16 * g + 3].tanks.len() == 1
                &&& r[16 + 16 * g + 7].tanks.len() == 1
                &&& r[16 + 16 * g].tanks[0].wet_mass < r[16 + 16 * g + 1].tanks[0].wet_mass
                &&& r[16 + 16 * g + 1].tanks[0].wet_mass < r[16 + 16 * g + 3].tanks[0].wet_mass
                &&& r[16 + 16 * g + 3].tanks[0].wet_mass < r[16 + 16 * g + 7].tanks[0].wet_mass
            },
{
    assert forall|i: int| 0 <= i < 16 implies (#[trigger] r[i]).size == Size::Xs && r[i].fuel_type
        == FuelType::Methalox by {
        assert(r[i] == stack_of(copies(oscar(), (i + 1) as nat)));
    }
    assert forall|g: int, j: int| 0 <= g < 4 && 0 <= j < 16 implies (#[trigger] r[16 + 16 * g + j]).size
        == group_size_class(g) && r[16 + 16 * g + j].fuel_type == FuelType::Methalox by {
        lemma_size_group(g);
        let b = size_group(g);
        if j < 15 {
            assert(r[16 + 16 * g + (j + 1) - 1] == stack_of(subset_of(b, j + 1)));
            lemma_subset_nonempty_uniform(b, j + 1);
        } else {
            assert(r[16 + 16 * g + 15] == stack_of(seq![b[3], b[3]]));
        }
    }
    assert forall|g: int| 0 <= g < 4 implies {
        &&& (#[trigger] r[16 + 16 * g]).tanks.len() == 1
        &&& r[16 + 16 * g + 1].tanks.len() == 1
        &&& r[16 + 16 * g + 3].tanks.len() == 1
        &&& r[16 + 16 * g + 7].tanks.len() == 1
        &&& r[16 + 16 * g].tanks[0].wet_mass < r[16 + 16 * g + 1].tanks[0].wet_mass
        &&& r[16 + 16 * g + 1].tanks[0].wet_mass < r[16 + 16 * g + 3].tanks[0].wet_mass
        &&& r[16 + 16 * g + 3].tanks[0].wet_mass < r[16 + 16 * g + 7].tanks[0].wet_mass
    } by {
        lemma_size_group(g);
        let b = size_group(g);
        assert(r[16 + 16 * g + 1 - 1] == stack_of(subset_of(b, 1)));
        assert(r[16 + 16 * g + 2 - 1] == stack_of(subset_of(b, 2)));
        assert(r[16 + 16 * g + 4 - 1] == stack_of(subset_of(b, 4)));
        assert(r[16 + 16 * g + 8 - 1] == stack_of(subset_of(b, 8)));
        assert(subset_of(b, 1) =~= seq![b[0]]);
        assert(subset_of(b, 2) =~= seq![b[1]]);
        assert(subset_of(b, 4) =~= seq![b[2]]);
        assert(subset_of(b, 8) =~= seq![b[3]]);
    }
}

/// Every tank of `ts` has a name.
pub open spec fn all_named(ts: Seq<TankView>) -> bool {
    forall|k: int| 0 <= k < ts.len() ==> (#[trigger] ts[k]).name.len() > 0
}

/// The name of a stack whose last tank has a name is not empty.
proof fn lemma_joined_names_nonempty(ts: Seq<TankView>)
    requires
        ts.len() > 0,
        ts.last().name.len() > 0,
    ensures
        joined_names(ts).len() > 0,
{
}

/// Naming distributes over stacking: the name of two stacks of named tanks
/// put together is the name of the first, a comma and a space, and the name
/// of the second.
pub proof fn law_joined_names_concat(a: Seq<TankView>, b: Seq<TankView>)
    requires
        a.len() > 0,
        b.len() > 0,
        all_named(a),
        all_named(b),
    ensures
        joined_names(a + b) == joined_names(a) + ", "@ + joined_names(b),
    decreases b.len(),
{
    let ab = a + b;
    assert(ab.drop_last() =~= a + b.drop_last());
    assert(ab.last() == b.last());
    assert(b.last() == b[b.len() - 1]);
    if b.len() == 1 {
        assert(ab.drop_last() =~= a);
        assert(a.last() == a[a.len() - 1]);
        lemma_joined_names_nonempty(a);
        assert(b.drop_last().len() == 0);
        assert(joined_names(b) == b.last().name);
    } else {
        let b1 = b.drop_last();
        assert forall|k: int| 0 <= k < b1.len() implies (#[trigger] b1[k]).name.len() > 0 by {
            assert(b1[k] == b[k]);
        }
        law_joined_names_concat(a, b1);
        assert(b1.last() == b[b.len() - 2]);
        lemma_joined_names_nonempty(b1);
        assert(a.last() == a[a.len() - 1]);
        lemma_joined_names_nonempty(a);
        assert(joined_names(a + b1).len() > 0);
        assert(joined_names(ab) =~= joined_names(a) + ", "@ + joined_names(b));
    }
}

/// A stack of `n` copies of a named tank is named by `n` copies of that
/// name with a comma and a space between each two: its name is `n` times
/// the tank's name long, plus two for each of the `n - 1` separators.
pub proof fn law_copies_name_length(t: TankView, n: nat)
    requires
        n > 0,
        t.name.len() > 0,
    ensures
        joined_names(copies(t, n)).len() == n * t.name.len() + 2 * (n - 1),
    decreases n,
{
    let s = copies(t, n);
    assert(s.last() == t);
    if n == 1 {
        assert(s.drop_last().len() == 0);
        assert(joined_names(s.drop_last()).len() == 0);
        assert(joined_names(s) == t.name);
    } else {
        law_copies_name_length(t, (n - 1) as nat);
        assert(s.drop_last() =~= copies(t, (n - 1) as nat));
        assert(copies(t, (n - 1) as nat).last() == t);
        lemma_joined_names_nonempty(copies(t, (n - 1) as nat));
        assert(", "@.len() == 2) by {
            reveal_strlit(", ");
        }
        assert(n * t.name.len() == (n - 1) * t.name.len() + t.name.len()) by (nonlinear_arith);
        assert(joined_names(s) == joined_names(copies(t, (n - 1) as nat)) + ", "@ + t.name);
    }
}

} // verus!
