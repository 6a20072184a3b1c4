use kerbal_kalculator::modules::fuel_type::FuelType;
use kerbal_kalculator::modules::size::Size;
use kerbal_kalculator::modules::tanks::hp_fuselage_name;
use kerbal_kalculator::modules::tanks::fuselage_names::{HP_STEEL_FUSELAGE_NAME, STEEL_FUSELAGE_NAME};
use kerbal_kalculator::modules::tanks::tanks::{FuelStack, Tank, TankType};
use kerbal_kalculator::modules::tanks::TankType as ShapeType;

fn tank(name: &str, wet: u32, dry: u32, size: Size) -> Tank {
    Tank::new(name, wet, dry, size, 0, FuelType::Methalox)
}

#[test]
fn max_tanks_per_kind() {
    assert_eq!(TankType::NoseTank.get_max_tanks(), 1);
    assert_eq!(TankType::CylindricalTank.get_max_tanks(), 4);
    assert_eq!(TankType::RadialTank.get_max_tanks(), 8);
}

#[test]
fn tank_shapes_differ() {
    assert_ne!(ShapeType::Cylindrical, ShapeType::Nosecone);
}

#[test]
fn diameters_in_millimetres() {
    assert_eq!(Size::Xs.get_diameter(), 300);
    assert_eq!(Size::Sm.get_diameter(), 1250);
}

#[test]
fn stack_takes_size_and_fuel_of_first_tank() {
    let a = Tank::new("A", 500, 50, Size::Md, 3, FuelType::Hydrogen);
    let b = Tank::new("B", 900, 90, Size::Sm, 4, FuelType::Methalox);
    let stack = FuelStack::new(vec![a, b]);
    assert_eq!(stack.size, Size::Md);
    assert_eq!(stack.fuel_type, FuelType::Hydrogen);
    assert_eq!(stack.tanks.len(), 2);
}

#[test]
fn stack_masses_are_sums() {
    let stack = FuelStack::new(vec![
        tank("FL-T100", 560, 60, Size::Sm),
        tank("FL-T200", 1130, 130, Size::Sm),
        tank("FL-T400", 2250, 250, Size::Sm),
    ]);
    assert_eq!(stack.get_wet_mass(), 3940);
    assert_eq!(stack.get_dry_mass(), 440);
}

#[test]
fn stack_masses_do_not_overflow() {
    let stack = FuelStack::multiple(&tank("Heavy", u32::MAX, u32::MAX - 1, Size::Xl), 3);
    assert_eq!(stack.get_wet_mass(), 3 * u32::MAX as u64);
    assert_eq!(stack.get_dry_mass(), 3 * (u32::MAX as u64 - 1));
}

#[test]
fn multiple_repeats_a_tank() {
    let oscar = tank("Oscar-B", 100, 10, Size::Xs);
    let stack = FuelStack::multiple(&oscar, 5);
    assert_eq!(stack.tanks.len(), 5);
    assert_eq!(stack.get_wet_mass(), 500);
    assert_eq!(stack.get_dry_mass(), 50);
    assert_eq!(stack.get_name(), "Oscar-B, Oscar-B, Oscar-B, Oscar-B, Oscar-B");
    assert_eq!(stack.size, Size::Xs);
}

#[test]
fn names_are_joined() {
    let stack = FuelStack::new(vec![tank("X200-8", 4500, 500, Size::Md), tank("X200-16", 9000, 1000, Size::Md)]);
    assert_eq!(stack.get_name(), "X200-8, X200-16");
    let single = FuelStack::new(vec![tank("S3-3600", 20250, 2250, Size::Lg)]);
    assert_eq!(single.get_name(), "S3-3600");
}

#[test]
fn no_separator_after_an_empty_name() {
    let stack = FuelStack::new(vec![tank("", 1, 0, Size::Sm), tank("B", 1, 0, Size::Sm), tank("C", 1, 0, Size::Sm)]);
    assert_eq!(stack.get_name(), "B, C");
}

#[test]
fn cloned_tank_is_equal() {
    let t = Tank::new("FL-T800", 4500, 500, Size::Sm, 7, FuelType::Methalox);
    let c = t.clone();
    assert_eq!(c.name, "FL-T800");
    assert_eq!(c.wet_mass, 4500);
    assert_eq!(c.dry_mass, 500);
    assert_eq!(c.cost, 7);
}

#[test]
fn catalog_layout() {
    let stacks = Tank::init_tanks();
    assert_eq!(stacks.len(), 80);
    for i in 0..16 {
        assert_eq!(stacks[i].tanks.len(), i + 1);
        assert_eq!(stacks[i].size, Size::Xs);
        assert_eq!(stacks[i].get_wet_mass(), 100 * (i as u64 + 1));
        assert_eq!(stacks[i].get_dry_mass(), 10 * (i as u64 + 1));
    }
    assert_eq!(stacks[16].get_name(), "FL-T100");
    assert_eq!(stacks[17].get_name(), "FL-T200");
    assert_eq!(stacks[18].get_name(), "FL-T100, FL-T200");
    assert_eq!(stacks[19].get_name(), "FL-T400");
    assert_eq!(stacks[30].get_name(), "FL-T100, FL-T200, FL-T400, FL-T800");
    assert_eq!(stacks[31].get_name(), "FL-T800, FL-T800");
    assert_eq!(stacks[32].get_name(), "X200-8");
    assert_eq!(stacks[46].get_name(), "X200-8, X200-16, X200-32, X200-64");
    assert_eq!(stacks[46].get_wet_mass(), 4500 + 9000 + 18000 + 36000);
    assert_eq!(stacks[79].get_name(), "S4-53200, S4-53200");
    assert_eq!(stacks[79].get_wet_mass(), 576000);
    assert_eq!(stacks[79].get_dry_mass(), 64000);
    assert_eq!(stacks[79].size, Size::Xl);
}

#[test]
fn catalog_stacks_are_uniform_and_hold_fuel() {
    for stack in Tank::init_tanks() {
        assert!(!stack.tanks.is_empty());
        for t in &stack.tanks {
            assert_eq!(t.size, stack.size);
            assert_eq!(t.fuel_type, stack.fuel_type);
        }
        assert!(stack.get_dry_mass() < stack.get_wet_mass());
    }
}

#[test]
fn concatenated_stacks_add_masses() {
    let a = vec![tank("A", 300, 30, Size::Sm), tank("B", 700, 70, Size::Sm)];
    let b = vec![tank("C", 1100, 110, Size::Sm)];
    let sa = FuelStack::new(a.clone());
    let sb = FuelStack::new(b.clone());
    let mut ab = a;
    ab.extend(b);
    let sab = FuelStack::new(ab);
    assert_eq!(sab.get_wet_mass(), sa.get_wet_mass() + sb.get_wet_mass());
    assert_eq!(sab.get_dry_mass(), sa.get_dry_mass() + sb.get_dry_mass());
}

#[test]
fn hp_names() {
    assert_eq!(hp_fuselage_name(STEEL_FUSELAGE_NAME), HP_STEEL_FUSELAGE_NAME);
    assert_eq!(hp_fuselage_name(""), "HP ");
}
