use piet::interpreter::{CC, CodeState, DP, Interpreter, PietCommand, PointerAspect};
use piet::palette::{rgba, PietColour};
use piet::canvas::PictureFormat;
use piet::surface::{Atlas, Chart, Topology};
use piet::palette::PietColour::{
    Black, Blue, Cyan, DarkBlue, DarkCyan, DarkGreen, DarkMagenta, DarkRed, DarkYellow, Green, LightBlue, LightCyan,
    LightGreen, LightMagenta, LightRed, LightYellow, Magenta, Red, White, Yellow,
};

/// The bytes of a PNG file of an image whose pixels have the colours `rows`.
fn png_of(rows: &[Vec<PietColour>]) -> Vec<u8> {
    let mut pixels: Vec<u8> = Vec::new();
    for row in rows {
        for colour in row {
            pixels.extend_from_slice(&rgba(*colour));
        }
    }
    let img = image::RgbaImage::from_raw(rows[0].len() as u32, rows.len() as u32, pixels).expect("pixels fit");
    let mut bytes: Vec<u8> = Vec::new();
    img.write_to(&mut std::io::Cursor::new(&mut bytes), image::ImageFormat::Png).expect("encodes");
    bytes
}

fn square() -> Vec<u8> {
    png_of(&[vec![Red, Yellow], vec![Red, Yellow]])
}


#[test]
fn charts_and_topologies() {
    let chart = Chart::new(&square(), PictureFormat::Png, 1, 3).expect("loads");
    assert_eq!(chart.dimensions(), (2, 2));
    assert_eq!(chart.canvas().dimensions(), (2, 2));
    let atlas = Atlas::new_torus(&square(), PictureFormat::Png, 1).expect("loads");
    assert_eq!(atlas.transition_map(), Topology::Torus);
    assert_eq!(atlas.chart(0).map(|c| c.dimensions()), Some((2, 2)));
    assert!(atlas.chart(1).is_none());
    assert_eq!(Atlas::new_canvas(&square(), PictureFormat::Png, 1).expect("loads").transition_map(), Topology::Plane);
    assert_eq!(Atlas::new_klein_bottle(&square(), PictureFormat::Png, 1).expect("loads").transition_map(), Topology::KleinBottle);
    assert_eq!(Atlas::new_projective_plane(&square(), PictureFormat::Png, 1).expect("loads").transition_map(), Topology::ProjectivePlane);
    assert!(Atlas::new_torus(&square(), PictureFormat::Png, 3).is_err());
}

#[test]
fn transitions_of_each_topology() {
    let east = Interpreter::from_data(DP::East, CC::Left, (1, 0), 0, false);
    let north = Interpreter::from_data(DP::North, CC::Left, (1, 0), 0, false);
    assert_eq!(Topology::Plane.transition(&east, 0), None);
    assert_eq!(Topology::Torus.transition(&east, 0), Some((0, false)));
    assert_eq!(Topology::Torus.transition(&east, 1), None);
    assert_eq!(Topology::KleinBottle.transition(&east, 0), Some((0, false)));
    assert_eq!(Topology::KleinBottle.transition(&north, 0), Some((0, true)));
    assert_eq!(Topology::ProjectivePlane.transition(&east, 0), Some((0, true)));
}

#[test]
fn transition_coordinates_mirror_the_chart() {
    let atlas = Atlas::new_torus(&square(), PictureFormat::Png, 1).expect("loads");
    let mut east = Interpreter::from_data(DP::East, CC::Left, (1, 0), 0, false);
    assert_eq!(atlas.transition_coord(&mut east, 0, 0, false), Some((0, 0)));
    assert_eq!(atlas.transition_coord(&mut east, 0, 0, true), Some((0, 1)));
    let mut north = Interpreter::from_data(DP::North, CC::Left, (1, 0), 0, false);
    assert_eq!(atlas.transition_coord(&mut north, 0, 0, false), Some((1, 1)));
    assert_eq!(atlas.transition_coord(&mut north, 0, 0, true), Some((0, 1)));
    assert_eq!(atlas.transition_coord(&mut north, 0, 1, false), None);
    assert_eq!(north.current_coordinate(), (1, 0));
}

#[test]
fn a_torus_leads_over_its_edge() {
    let atlas = Atlas::new_torus(&square(), PictureFormat::Png, 1).expect("loads");
    let mut interpreter = Interpreter::from_data(DP::East, CC::Left, (1, 0), 0, false);
    assert!(interpreter.can_step(&atlas));
    let state = interpreter.get_next_state(&atlas, PointerAspect::CC);
    assert_eq!(state, CodeState::Continue(Some(PietCommand::InputChar)));
    assert_eq!(interpreter.current_coordinate(), (0, 0));
    assert_eq!(interpreter.current_chart_index(), 0);
    assert_eq!(interpreter.cc(), CC::Left);
}

#[test]
fn a_projective_plane_reverses() {
    let atlas = Atlas::new_projective_plane(&square(), PictureFormat::Png, 1).expect("loads");
    let mut interpreter = Interpreter::from_data(DP::East, CC::Left, (1, 0), 0, false);
    assert!(interpreter.can_step(&atlas));
    let state = interpreter.get_next_state(&atlas, PointerAspect::CC);
    assert_eq!(state, CodeState::Continue(Some(PietCommand::InputChar)));
    assert_eq!(interpreter.current_coordinate(), (0, 1));
    assert_eq!(interpreter.cc(), CC::Right);
    // On the reversed chart the direction pointer turns anticlockwise.
    interpreter.modify_pointer(PointerAspect::DP);
    assert_eq!(interpreter.dp(), DP::North);
}

#[test]
fn a_plane_blocks_at_its_edge() {
    let atlas = Atlas::new_canvas(&square(), PictureFormat::Png, 1).expect("loads");
    let mut interpreter = Interpreter::from_data(DP::East, CC::Left, (1, 0), 0, false);
    assert!(interpreter.can_step(&atlas));
    let state = interpreter.get_next_state(&atlas, PointerAspect::CC);
    assert_eq!(state, CodeState::ModifyPointer(PointerAspect::CC));
    assert_eq!(interpreter.current_coordinate(), (1, 0));
}

#[test]
fn edges_that_lead_off_the_chart_are_unsafe() {
    let wide = png_of(&[vec![Red, Yellow]]);
    let atlas = Atlas::new_torus(&wide, PictureFormat::Png, 1).expect("loads");
    let east = Interpreter::from_data(DP::East, CC::Left, (1, 0), 0, false);
    assert!(!east.can_step(&atlas));
    let west = Interpreter::from_data(DP::West, CC::Left, (0, 0), 0, false);
    assert!(west.can_step(&atlas));
    let plane = Atlas::new_canvas(&wide, PictureFormat::Png, 1).expect("loads");
    assert!(east.can_step(&plane));
}

#[test]
fn edges_that_lead_onto_black_are_unsafe() {
    let image = png_of(&[vec![Red, Black], vec![Red, Red]]);
    let atlas = Atlas::new_torus(&image, PictureFormat::Png, 1).expect("loads");
    let from_corner = Interpreter::from_data(DP::East, CC::Left, (0, 0), 0, false);
    assert!(!from_corner.can_step(&atlas));
    let from_exit = Interpreter::from_data(DP::East, CC::Left, (1, 1), 0, false);
    assert!(from_exit.can_step(&atlas));
}

#[test]
fn checked_constructors_read_readable_images() {
    let chart = Chart::checked_new(&square(), PictureFormat::Png, 1, 2).expect("readable").expect("loads");
    assert_eq!(chart.dimensions(), (2, 2));
    assert!(matches!(Chart::checked_new(&square(), PictureFormat::Png, 3, 0), Some(Err(_))));
    for topology in [Topology::Plane, Topology::Torus, Topology::KleinBottle, Topology::ProjectivePlane] {
        let atlas = Atlas::checked_new(&square(), PictureFormat::Png, 1, topology).expect("readable").expect("loads");
        assert_eq!(atlas.transition_map(), topology);
    }
    assert!(matches!(Atlas::checked_new(&[0u8, 1, 2], PictureFormat::Png, 1, Topology::Torus), Some(Err(_))));
}
