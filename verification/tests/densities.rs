//! Densities of the propellants, from the masses and volumes of full and
//! empty tanks.

use kerbal_kalculator::modules::fuel_type::FuelType;

/// Calculates the density of a fuel.
///
/// Arguments:
/// * `wet_mass` - the wet mass of the tank in kg
/// * `dry_mass` - the dry mass of the tank in kg
/// * `volume` - the volume of the tank in L
fn calculate_density(name: &str, wet_mass: f64, dry_mass: f64, volume: f64) -> f64 {
    let fuel_mass = wet_mass - dry_mass;
    let density = fuel_mass / volume;
    println!("\n{} density = {:.5}", name, density);
    density
}

fn calculate_density_2(name: &str, flow_rate_liters_per_sec: f64, flow_rate_mass_per_sec: f64) -> f64 {
    let density = flow_rate_mass_per_sec / flow_rate_liters_per_sec;
    println!("\n{} density = {:.5}", name, density);
    density
}

#[test]
fn get_densities() {
    calculate_density("RP-1", 996.0, 149.0, 1050.1546);
    calculate_density("PSPC", 1.93, 0.0, 1.11);
    calculate_density("AnilineFurfuryl_22p", 19900.0, 2420.0, 16741.6446);
    calculate_density("IRFNA-III", 28600.0, 2420.0, 16741.6446);
    calculate_density("Liquid Nitrogen", 16200.0, 2420.0, 16741.6446);
    calculate_density("Kerosene", 15400.0, 2420.0, 16741.6446);
    calculate_density("AK20", 28100.0, 2420.0, 16741.6446);
    calculate_density("Water", 19200.0, 2420.0, 16741.6446);
    calculate_density("NGNC", 66.2, 0.0, 41.3903);
    calculate_density("Ethanol_75", 16500.0, 2420.0, 16741.6446);
    calculate_density("Liquid Oxygen", 21500.0, 2420.0, 16741.6446);
    calculate_density("HTP", 26400.0, 2420.0, 16741.6446);
    calculate_density("AnilineFurfuryl_37p", 588.0, 70.6, 488.9104);
    calculate_density("Ethanol_90", 467.0, 70.6, 488.9104);
    //calculate_density("Hydyne", 491.0, 70.6, 488.9104);
    calculate_density_2("Hydyne", 57.7, 49.6);
}

#[test]
fn fuel_types_are_distinct() {
    assert_ne!(FuelType::Methalox, FuelType::Hydrogen);
}
