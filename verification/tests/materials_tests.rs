use raytracing_in_rust::channel::Channel;
use raytracing_in_rust::materials::{DefaultMaterial, DiffuseLight, Isotropic, Lambertian};

#[test]
fn materials_keep_their_texture_indices() {
    assert_eq!(Lambertian::new(3).albedo_texture_index, 3);
    assert_eq!(DiffuseLight::new(4).emission_texture_index, 4);
    assert_eq!(Isotropic::new(5).albedo_texture_index, 5);
    assert_eq!(DefaultMaterial {}, DefaultMaterial {});
}

#[test]
fn diffuse_lights_emit_only_from_the_front() {
    let light = DiffuseLight::new(9);
    assert_eq!(light.emitted_texture(true), Some(9));
    assert_eq!(light.emitted_texture(false), None);
}

#[test]
fn channels_select_their_component() {
    assert_eq!(Channel::R.select(0.25f64, 0.5, 0.75), 0.25);
    assert_eq!(Channel::G.select(0.25f64, 0.5, 0.75), 0.5);
    assert_eq!(Channel::B.select(1u8, 2, 3), 3);
}
