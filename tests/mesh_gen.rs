use distance_field::mesh::{clamp_to_range, Mesh};
use distance_field::raster::HeightImage;
use distance_field::settings::{CaptureHeight, GenSettings, ImgRepeat, UNITS_PER_CELL};

fn image(width: usize, height: usize, pixels: Vec<u8>) -> HeightImage {
    HeightImage::new(width, height, pixels).unwrap()
}

#[test]
fn grey_bmp() {
    let img = image(16, 16, vec![128; 256]);
    let settings = GenSettings::new();
    let mesh = Mesh::generate(&img, &settings).unwrap();
    assert_eq!(mesh.verts.len(), mesh.ext_dim.0 * mesh.ext_dim.1);
}

#[test]
fn full_pixel_is_radius_tall() {
    let settings = GenSettings::new_from_values((64, ImgRepeat::Repeat, CaptureHeight::Generated, 1000));
    assert_eq!(Mesh::compute_height(255, &settings) as i128, 64 * UNITS_PER_CELL as i128);
    assert_eq!(Mesh::compute_height(0, &settings), 0);
    let doubled = GenSettings::new_from_values((10, ImgRepeat::Repeat, CaptureHeight::Generated, 2000));
    assert_eq!(Mesh::compute_height(255, &doubled), 2 * 10 * UNITS_PER_CELL);
    assert_eq!(Mesh::compute_height(51, &doubled), 2 * 51 * 10 * 2000);
}

#[test]
fn repeat_wraps_negative_and_large_coordinates() {
    assert_eq!(Mesh::mesh_to_image_coords_repeat((-1, -3), (4, 3)), (3, 0));
    assert_eq!(Mesh::mesh_to_image_coords_repeat((4, 5), (4, 3)), (0, 2));
    assert_eq!(Mesh::mesh_to_image_coords_repeat((-9, 7), (4, 3)), (3, 1));
    assert_eq!(Mesh::mesh_to_image_coords_repeat((2, 1), (4, 3)), (2, 1));
}

#[test]
fn clamp_replicates_edges() {
    assert_eq!(Mesh::mesh_to_image_coords_clamped((-1, -3), (4, 3)), (0, 0));
    assert_eq!(Mesh::mesh_to_image_coords_clamped((4, 5), (4, 3)), (3, 2));
    assert_eq!(Mesh::mesh_to_image_coords_clamped((2, 1), (4, 3)), (2, 1));
    assert_eq!(clamp_to_range(7, 0, 5), 5);
    assert_eq!(clamp_to_range(-7, 0, 5), 0);
}

#[test]
fn clamp_mesh_has_one_cell_skirt() {
    let img = image(3, 2, vec![10, 20, 30, 40, 50, 60]);
    let settings = GenSettings::new_from_values((8, ImgRepeat::Clamp, CaptureHeight::Generated, 1000));
    let mesh = Mesh::generate(&img, &settings).unwrap();
    assert_eq!(mesh.skirt, 1);
    assert_eq!(mesh.ext_dim, (5, 4));
    assert_eq!(mesh.verts.len(), 20);
    // Mesh row 0 is the bottom raster row (40, 50, 60); cell (-1, -1) copies (0, 0).
    assert_eq!(mesh.verts[0].z, Mesh::compute_height(40, &settings) as i128);
    // Top-right corner of the skirt copies raster (2, 0).
    assert_eq!(mesh.verts[19].z, Mesh::compute_height(30, &settings) as i128);
}

#[test]
fn repeat_mesh_wraps_opposite_edge() {
    let img = image(2, 2, vec![0, 255, 255, 255]);
    let settings = GenSettings::new_from_values((4, ImgRepeat::Repeat, CaptureHeight::Generated, 1000));
    let mesh = Mesh::generate(&img, &settings).unwrap();
    // Border: min 0, max 255 so the radius stays 4, clamped to the image side 2.
    assert_eq!(mesh.usable_radius, 2);
    assert_eq!(mesh.ext_dim, (6, 6));
    // Cell (-2, -1) wraps to (0, 1), the top-left raster pixel of value 0.
    let index = (-1 + 2) * 6 + (-2 + 2);
    assert_eq!(mesh.verts[index as usize].z, 0);
    assert_eq!(mesh.verts[index as usize].x, (2 * -2 + 1) * 255000);
}

#[test]
fn usable_radius_follows_border_range_and_multiplier() {
    let mut pixels = vec![0u8; 100];
    pixels[0] = 51;
    let img = image(10, 10, pixels);
    let settings = GenSettings::new_from_values((20, ImgRepeat::Repeat, CaptureHeight::Generated, 1000));
    let mesh = Mesh::generate(&img, &settings).unwrap();
    // floor(20 * 51 / 255 * 1.0) = 4.
    assert_eq!(mesh.usable_radius, 4);
    let user = GenSettings::new_from_values((20, ImgRepeat::Repeat, CaptureHeight::UserDefined(255), 1500));
    let mesh = Mesh::generate(&img, &user).unwrap();
    // min(20, floor(20 * 255 / 255 * 1.5)) = 20, clamped to the side 10.
    assert_eq!(mesh.usable_radius, 10);
}

#[test]
fn empty_image_gives_no_mesh() {
    let img = image(0, 5, vec![]);
    assert!(Mesh::generate(&img, &GenSettings::new()).is_none());
}

#[test]
fn faces_are_counter_clockwise() {
    let img = image(3, 3, vec![0, 50, 100, 150, 200, 250, 30, 60, 90]);
    let settings = GenSettings::new_from_values((2, ImgRepeat::Clamp, CaptureHeight::Generated, 1000));
    let mesh = Mesh::generate(&img, &settings).unwrap();
    let faces = mesh.faces();
    assert_eq!(faces.len(), 2 * 4 * 4);
    assert_eq!(faces[0].verts, (6, 5, 0));
    assert_eq!(faces[1].verts, (6, 0, 1));
    for f in &faces {
        let n = f.compute_normal(&mesh.verts);
        assert!(n.z > 0);
    }
}

#[test]
fn mesh_clone_keeps_every_vertex() {
    let img = image(3, 2, vec![1, 2, 3, 4, 5, 6]);
    let settings = GenSettings::new_from_values((3, ImgRepeat::Repeat, CaptureHeight::Generated, 1000));
    let mesh = Mesh::generate(&img, &settings).unwrap();
    let copy = mesh.clone();
    assert_eq!(copy.verts, mesh.verts);
    assert_eq!(copy.ext_dim, mesh.ext_dim);
    assert_eq!(copy.usable_radius, mesh.usable_radius);
    assert_eq!(copy.skirt, mesh.skirt);
    assert_eq!(copy.dimensions, mesh.dimensions);
}
