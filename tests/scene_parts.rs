use raytracer::faces::{face_at, Face, FaceMaterials};
use raytracer::pixel::Pixel;
use raytracer::skybox::Skybox;

#[test]
fn face_order_on_edges() {
    assert_eq!(face_at(true, false, true, false, true), Face::NegX);
    assert_eq!(face_at(false, true, false, true, false), Face::PosX);
    assert_eq!(face_at(false, false, true, true, true), Face::NegY);
    assert_eq!(face_at(false, false, false, true, true), Face::PosY);
    assert_eq!(face_at(false, false, false, false, true), Face::NegZ);
    assert_eq!(face_at(false, false, false, false, false), Face::PosZ);
}

#[test]
fn uniform_box_shows_base_everywhere() {
    let fm = FaceMaterials::uniform("stone");
    for face in [Face::NegX, Face::PosX, Face::NegY, Face::PosY, Face::NegZ, Face::PosZ] {
        assert_eq!(*fm.material_for(face), "stone");
    }
}

#[test]
fn layered_box_uses_overrides() {
    let fm = FaceMaterials { base: "dirt", top: Some("grass"), side: Some("dirt side"), bottom: Some("dirt bottom") };
    assert_eq!(*fm.material_for(Face::PosY), "grass");
    assert_eq!(*fm.material_for(Face::NegY), "dirt bottom");
    assert_eq!(*fm.material_for(Face::PosX), "dirt side");
    assert_eq!(*fm.material_for(Face::NegZ), "dirt side");
}

#[test]
fn missing_override_falls_back_to_base() {
    let fm = FaceMaterials { base: "log", top: None, side: Some("bark"), bottom: None };
    assert_eq!(*fm.material_for(Face::PosY), "log");
    assert_eq!(*fm.material_for(Face::NegY), "log");
    assert_eq!(*fm.material_for(Face::PosZ), "bark");
}

#[test]
fn skybox_new_equals_default() {
    assert_eq!(Skybox::new(), Skybox::default());
}

#[test]
fn pixel_constructors() {
    let p = Pixel::new(1, 2, 3, 4);
    assert_eq!((p.r, p.g, p.b, p.a), (1, 2, 3, 4));
    assert_eq!(Pixel::black(), Pixel::new(0, 0, 0, 255));
}
